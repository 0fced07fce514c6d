//! reveal's `<!-- .element: -->` and `<!-- .slide: -->` attribute comments.
//!
//! These are features of reveal's markdown plugin, which renders in the
//! browser. Markdown is rendered here at build time, so the plugin never
//! runs; applying the comments here gives the same authoring experience.
//! `.element` attaches to the element the comment sits in or directly after;
//! `.slide` is collected for the enclosing `<section>`.

use vstd::prelude::*;
use crate::text::{
    ascii_alnum, chars_of, find_from, find_from_exec, is_ascii_alnum, is_ws, is_ws_char,
    lemma_find_from_result, matches_at, push_all, push_range, push_str, range_eq_str, skip_ws,
    skip_ws_back, string_of, trim, trim_end, trim_range, trim_start,
};

verus! {

/// Whether a tag opens, closes, or stands alone.
#[derive(Clone, Copy, PartialEq, Eq, Debug, Structural)]
pub enum Kind {
    Open,
    Close,
    Void,
}

/// An HTML tag of a text: the characters `start..end`, its name at
/// `name_start..name_end`.
#[derive(Clone, Copy, PartialEq, Eq, Debug, Structural)]
pub struct Tag {
    pub name_start: usize,
    pub name_end: usize,
    pub start: usize,
    pub end: usize,
    pub kind: Kind,
}

pub open spec fn comment_open() -> Seq<char> {
    seq!['<', '!', '-', '-']
}

pub open spec fn comment_close() -> Seq<char> {
    seq!['-', '-', '>']
}

fn comment_open_exec() -> (v: Vec<char>)
    ensures
        v@ == comment_open(),
{
    let mut v: Vec<char> = Vec::new();
    v.push('<');
    v.push('!');
    v.push('-');
    v.push('-');
    assert(v@ =~= comment_open());
    v
}

fn comment_close_exec() -> (v: Vec<char>)
    ensures
        v@ == comment_close(),
{
    let mut v: Vec<char> = Vec::new();
    v.push('-');
    v.push('-');
    v.push('>');
    assert(v@ =~= comment_close());
    v
}

fn one_char(c: char) -> (v: Vec<char>)
    ensures
        v@ == seq![c],
{
    let mut v: Vec<char> = Vec::new();
    v.push(c);
    assert(v@ =~= seq![c]);
    v
}

/// Elements that never have a closing tag.
pub open spec fn is_void_name(n: Seq<char>) -> bool {
    n == "area"@ || n == "base"@ || n == "br"@ || n == "col"@ || n == "embed"@ || n == "hr"@ || n
        == "img"@ || n == "input"@ || n == "link"@ || n == "meta"@ || n == "source"@ || n
        == "track"@ || n == "wbr"@
}

fn void_name_exec(s: &Vec<char>, a: usize, b: usize) -> (r: bool)
    requires
        a <= b <= s.len(),
    ensures
        r == is_void_name(s@.subrange(a as int, b as int)),
{
    range_eq_str(s, a, b, "area") || range_eq_str(s, a, b, "base") || range_eq_str(s, a, b, "br")
        || range_eq_str(s, a, b, "col") || range_eq_str(s, a, b, "embed") || range_eq_str(
        s,
        a,
        b,
        "hr",
    ) || range_eq_str(s, a, b, "img") || range_eq_str(s, a, b, "input") || range_eq_str(
        s,
        a,
        b,
        "link",
    ) || range_eq_str(s, a, b, "meta") || range_eq_str(s, a, b, "source") || range_eq_str(
        s,
        a,
        b,
        "track",
    ) || range_eq_str(s, a, b, "wbr")
}

/// The first index in `k..lim` of a character that is not an ASCII letter
/// or digit, or `lim`.
pub open spec fn alnum_end(h: Seq<char>, k: int, lim: int) -> int
    decreases lim - k,
{
    if k < lim && 0 <= k < h.len() && is_ascii_alnum(h[k]) {
        alnum_end(h, k + 1, lim)
    } else {
        k
    }
}

proof fn lemma_alnum_end_shift(h: Seq<char>, a: int, b: int, k: int)
    requires
        0 <= a <= k <= b <= h.len(),
    ensures
        alnum_end(h.subrange(a, b), k - a, b - a) == alnum_end(h, k, b) - a,
    decreases b - k,
{
    if k < b && is_ascii_alnum(h[k]) {
        assert(h.subrange(a, b)[k - a] == h[k]);
        lemma_alnum_end_shift(h, a, b, k + 1);
    } else if k < b {
        assert(h.subrange(a, b)[k - a] == h[k]);
    }
}

fn alnum_end_exec(h: &Vec<char>, k: usize, lim: usize) -> (r: usize)
    requires
        k <= lim <= h.len(),
    ensures
        r as int == alnum_end(h@, k as int, lim as int),
        k <= r <= lim,
{
    let mut j = k;
    while j < lim && ascii_alnum(h[j])
        invariant
            k <= j <= lim <= h.len(),
            alnum_end(h@, j as int, lim as int) == alnum_end(h@, k as int, lim as int),
        decreases lim - j,
    {
        j = j + 1;
    }
    j
}

/// The tags of `h` from index `i` on, after those in `out`. Comments are
/// skipped so that an attribute comment is never mistaken for markup.
pub open spec fn tags_from(h: Seq<char>, i: int, out: Seq<Tag>) -> Seq<Tag>
    decreases h.len() - i,
{
    if i < 0 || i > h.len() {
        out
    } else {
        match find_from(h, i, seq!['<']) {
            None => out,
            Some(start) => {
                proof {
                    lemma_find_from_result(h, i, seq!['<']);
                }
                if matches_at(h, start, comment_open()) {
                    match find_from(h, start, comment_close()) {
                        Some(n) => {
                            proof {
                                lemma_find_from_result(h, start, comment_close());
                            }
                            tags_from(h, n + 3, out)
                        },
                        None => out,
                    }
                } else {
                    match find_from(h, start, seq!['>']) {
                        None => out,
                        Some(gt) => {
                            proof {
                                lemma_find_from_result(h, start, seq!['>']);
                            }
                            let end = gt + 1;
                            let closing = start + 1 < h.len() && h[start + 1] == '/';
                            let name_at = if closing {
                                start + 2
                            } else {
                                start + 1
                            };
                            let name_end = alnum_end(h, name_at, end);
                            let kind = if closing {
                                Kind::Close
                            } else if h[gt - 1] == '/' || is_void_name(
                                h.subrange(name_at, name_end),
                            ) {
                                Kind::Void
                            } else {
                                Kind::Open
                            };
                            let tag = Tag {
                                name_start: name_at as usize,
                                name_end: name_end as usize,
                                start: start as usize,
                                end: end as usize,
                                kind,
                            };
                            tags_from(
                                h,
                                end,
                                if name_end > name_at {
                                    out.push(tag)
                                } else {
                                    out
                                },
                            )
                        },
                    }
                }
            },
        }
    }
}

/// Every tag of `h`, in source order.
pub open spec fn tags_spec(h: Seq<char>) -> Seq<Tag> {
    tags_from(h, 0, Seq::empty())
}

/// Every tag is well placed: its name lies inside it and it lies inside `h`.
pub open spec fn tags_within(tags: Seq<Tag>, len: nat) -> bool {
    forall|k: int|
        #![trigger tags[k]]
        0 <= k < tags.len() ==> tags[k].name_start <= tags[k].name_end <= tags[k].end
            && tags[k].start < tags[k].end <= len
}

/// Every HTML tag in `h`, in source order.
pub fn tags(h: &Vec<char>) -> (r: Vec<Tag>)
    ensures
        r@ == tags_spec(h@),
        tags_within(r@, h@.len()),
{
    let lt = one_char('<');
    let gtp = one_char('>');
    let co = comment_open_exec();
    let cc = comment_close_exec();
    let mut out: Vec<Tag> = Vec::new();
    let mut i: usize = 0;
    loop
        invariant
            i <= h.len(),
            lt@ == seq!['<'],
            gtp@ == seq!['>'],
            co@ == comment_open(),
            cc@ == comment_close(),
            tags_from(h@, i as int, out@) == tags_spec(h@),
            tags_within(out@, h@.len()),
        decreases h.len() - i,
    {
        let start = match find_from_exec(h, i, &lt) {
            None => {
                return out;
            },
            Some(s) => s,
        };
        proof {
            lemma_find_from_result(h@, i as int, seq!['<']);
        }
        if crate::text::matches_at_exec(h, start, &co) {
            match find_from_exec(h, start, &cc) {
                Some(n) => {
                    proof {
                        lemma_find_from_result(h@, start as int, comment_close());
                    }
                    i = n + 3;
                },
                None => {
                    return out;
                },
            }
        } else {
            match find_from_exec(h, start, &gtp) {
                None => {
                    return out;
                },
                Some(gt) => {
                    proof {
                        lemma_find_from_result(h@, start as int, seq!['>']);
                    }
                    assert(h@.subrange(start as int, start + 1)[0] == h@[start as int]);
                    assert(h@[start as int] == '<');
                    assert(h@[gt as int] == '>') by {
                        assert(h@.subrange(gt as int, gt + 1)[0] == h@[gt as int]);
                    }
                    let end = gt + 1;
                    let closing = start + 1 < h.len() && h[start + 1] == '/';
                    let name_at = if closing {
                        start + 2
                    } else {
                        start + 1
                    };
                    let name_end = alnum_end_exec(h, name_at, end);
                    let kind = if closing {
                        Kind::Close
                    } else if h[gt - 1] == '/' || void_name_exec(h, name_at, name_end) {
                        Kind::Void
                    } else {
                        Kind::Open
                    };
                    if name_end > name_at {
                        out.push(
                            Tag {
                                name_start: name_at,
                                name_end: name_end,
                                start: start,
                                end: end,
                                kind,
                            },
                        );
                    }
                    i = end;
                },
            }
        }
    }
}

// ---------------------------------------------------------------------------
// Pairing closing tags with their openers

/// The name of tag `t` of `h`.
pub open spec fn tag_name(h: Seq<char>, t: Tag) -> Seq<char> {
    h.subrange(t.name_start as int, t.name_end as int)
}

/// The last position in `stack` below `k` whose tag has the same name as
/// tag `c`.
pub open spec fn last_same_name(h: Seq<char>, tags: Seq<Tag>, stack: Seq<usize>, k: int, c: int) -> Option<
    int,
>
    decreases k,
{
    if k <= 0 || k > stack.len() {
        None
    } else if tag_name(h, tags[stack[k - 1] as int]) == tag_name(h, tags[c]) {
        Some(k - 1)
    } else {
        last_same_name(h, tags, stack, k - 1, c)
    }
}

/// For each tag from the `i`th on, the index of the tag that opened it, if
/// it closes one. Unbalanced markup unwinds to the nearest same-named
/// opening tag rather than assuming the top of the stack matches.
pub open spec fn pairs_from(
    h: Seq<char>,
    tags: Seq<Tag>,
    i: int,
    stack: Seq<usize>,
    out: Seq<Option<usize>>,
) -> Seq<Option<usize>>
    decreases tags.len() - i,
{
    if i < 0 || i >= tags.len() {
        out
    } else {
        match tags[i].kind {
            Kind::Open => pairs_from(h, tags, i + 1, stack.push(i as usize), out.push(None)),
            Kind::Void => pairs_from(h, tags, i + 1, stack, out.push(None)),
            Kind::Close => match last_same_name(h, tags, stack, stack.len() as int, i) {
                Some(pos) => pairs_from(
                    h,
                    tags,
                    i + 1,
                    stack.take(pos),
                    out.push(Some(stack[pos])),
                ),
                None => pairs_from(h, tags, i + 1, stack, out.push(None)),
            },
        }
    }
}

pub open spec fn pairs_spec(h: Seq<char>, tags: Seq<Tag>) -> Seq<Option<usize>> {
    pairs_from(h, tags, 0, Seq::empty(), Seq::empty())
}

/// For each tag, the index of the tag that opened it, if it closes one.
pub fn pairs(h: &Vec<char>, tags: &Vec<Tag>) -> (r: Vec<Option<usize>>)
    requires
        tags_within(tags@, h@.len()),
    ensures
        r@ == pairs_spec(h@, tags@),
        r@.len() == tags@.len(),
        forall|k: int|
            0 <= k < r@.len() ==> (#[trigger] r@[k] matches Some(j) ==> j < tags@.len()),
{
    let mut stack: Vec<usize> = Vec::new();
    let mut out: Vec<Option<usize>> = Vec::new();
    let mut i: usize = 0;
    while i < tags.len()
        invariant
            i <= tags.len(),
            tags_within(tags@, h@.len()),
            pairs_from(h@, tags@, i as int, stack@, out@) == pairs_spec(h@, tags@),
            out@.len() == i,
            forall|k: int| 0 <= k < stack@.len() ==> #[trigger] stack@[k] < i,
            forall|k: int|
                0 <= k < out@.len() ==> (#[trigger] out@[k] matches Some(j) ==> j < tags@.len()),
        decreases tags.len() - i,
    {
        let t = tags[i];
        match t.kind {
            Kind::Open => {
                stack.push(i);
                out.push(None);
            },
            Kind::Void => {
                out.push(None);
            },
            Kind::Close => {
                let mut k = stack.len();
                let mut found: Option<usize> = None;
                while k > 0
                    invariant_except_break
                        k <= stack@.len(),
                        last_same_name(h@, tags@, stack@, k as int, i as int) == last_same_name(
                            h@,
                            tags@,
                            stack@,
                            stack@.len() as int,
                            i as int,
                        ),
                        found is None,
                    invariant
                        i < tags.len(),
                        t == tags@[i as int],
                        tags_within(tags@, h@.len()),
                        forall|q: int| 0 <= q < stack@.len() ==> #[trigger] stack@[q] < i,
                    ensures
                        match found {
                            Some(p) => p < stack@.len() && last_same_name(
                                h@,
                                tags@,
                                stack@,
                                stack@.len() as int,
                                i as int,
                            ) == Some(p as int),
                            None => last_same_name(
                                h@,
                                tags@,
                                stack@,
                                stack@.len() as int,
                                i as int,
                            ) is None,
                        },
                    decreases k,
                {
                    let j = stack[k - 1];
                    let tj = tags[j];
                    assert(tags@[j as int] == tj);
                    assert(tag_name(h@, tj).len() == tj.name_end - tj.name_start);
                    assert(tag_name(h@, t).len() == t.name_end - t.name_start);
                    let same = tj.name_end - tj.name_start == t.name_end - t.name_start
                        && crate::text::matches_at_exec(
                        h,
                        tj.name_start,
                        &crate::text::slice_of(h, t.name_start, t.name_end),
                    );
                    if same {
                        assert(h@.subrange(tj.name_start as int, tj.name_start + (t.name_end - t.name_start) as int) =~= tag_name(h@, tj));
                        found = Some(k - 1);
                        break;
                    }
                    if tj.name_end - tj.name_start == t.name_end - t.name_start {
                        assert(h@.subrange(tj.name_start as int, tj.name_start + (t.name_end - t.name_start) as int) =~= tag_name(h@, tj));
                    }
                    k = k - 1;
                }
                match found {
                    Some(p) => {
                        let opener = stack[p];
                        out.push(Some(opener));
                        stack.truncate(p);
                    },
                    None => {
                        out.push(None);
                    },
                }
            },
        }
        i = i + 1;
    }
    out
}

} // verus!

verus! {

// ---------------------------------------------------------------------------
// Attribute lists

/// The first index at or after `k` holding whitespace, or the end.
pub open spec fn first_ws(s: Seq<char>, k: int) -> int
    decreases s.len() - k,
{
    if k < 0 || k >= s.len() {
        s.len() as int
    } else if is_ws(s[k]) {
        k
    } else {
        first_ws(s, k + 1)
    }
}

pub proof fn lemma_first_ws(s: Seq<char>, k: int)
    requires
        0 <= k <= s.len(),
    ensures
        k <= first_ws(s, k) <= s.len(),
    decreases s.len() - k,
{
    if k < s.len() && !is_ws(s[k]) {
        lemma_first_ws(s, k + 1);
    }
}

/// An attribute's value, quoted or bare, and the text after it.
pub open spec fn value_and_tail(after: Seq<char>) -> (Seq<char>, Seq<char>) {
    if after.len() > 0 && (after[0] == '"' || after[0] == '\'') {
        let body = after.skip(1);
        match find_from(body, 0, seq![after[0]]) {
            Some(n) => (body.take(n), body.skip(n + 1)),
            None => (body, Seq::empty()),
        }
    } else {
        let n = first_ws(after, 0);
        (after.take(n), after.skip(n))
    }
}

pub proof fn lemma_value_and_tail(after: Seq<char>)
    ensures
        value_and_tail(after).1.len() <= after.len(),
{
    if after.len() > 0 && (after[0] == '"' || after[0] == '\'') {
        lemma_find_from_result(after.skip(1), 0, seq![after[0]]);
    } else {
        lemma_first_ws(after, 0);
    }
}

/// The `name=value` pairs of an attribute list from `rest` on.
pub open spec fn attrs_from(rest: Seq<char>, out: Seq<(Seq<char>, Seq<char>)>) -> Seq<
    (Seq<char>, Seq<char>),
>
    decreases rest.len(),
{
    match find_from(rest, 0, seq!['=']) {
        None => out,
        Some(eq) => {
            proof {
                lemma_find_from_result(rest, 0, seq!['=']);
            }
            let name = trim(rest.take(eq));
            let after = trim_start(rest.skip(eq + 1));
            let (value, tail) = value_and_tail(after);
            proof {
                crate::text::lemma_trim_start_len(rest.skip(eq + 1));
                lemma_value_and_tail(after);
                crate::text::lemma_trim_start_len(tail);
            }
            attrs_from(
                trim_start(tail),
                if name.len() > 0 {
                    out.push((name, value))
                } else {
                    out
                },
            )
        },
    }
}

/// The pairs of an attribute list such as `class="fragment" data-x="1"`.
pub open spec fn parse_attrs_spec(s: Seq<char>) -> Seq<(Seq<char>, Seq<char>)> {
    attrs_from(trim(s), Seq::empty())
}

pub open spec fn pair_views(v: Seq<(Vec<char>, Vec<char>)>) -> Seq<(Seq<char>, Seq<char>)> {
    v.map_values(|p: (Vec<char>, Vec<char>)| (p.0@, p.1@))
}

/// The first index of `c` in `s[lo..hi]`, as an index of `s`.
fn find_char_range(s: &Vec<char>, lo: usize, hi: usize, c: char) -> (r: Option<usize>)
    requires
        lo <= hi <= s.len(),
    ensures
        match r {
            Some(k) => lo <= k < hi && find_from(s@.subrange(lo as int, hi as int), 0, seq![c])
                == Some(k - lo),
            None => find_from(s@.subrange(lo as int, hi as int), 0, seq![c]) is None,
        },
{
    let ghost sub = s@.subrange(lo as int, hi as int);
    let mut j = lo;
    while j < hi
        invariant
            lo <= j <= hi <= s.len(),
            sub == s@.subrange(lo as int, hi as int),
            find_from(sub, j - lo, seq![c]) == find_from(sub, 0, seq![c]),
        decreases hi - j,
    {
        assert(sub.subrange(j - lo, j - lo + 1) =~= seq![s@[j as int]]);
        if s[j] == c {
            return Some(j);
        }
        assert(!matches_at(sub, j - lo, seq![c])) by {
            if matches_at(sub, j - lo, seq![c]) {
                assert(sub.subrange(j - lo, j - lo + 1)[0] == seq![c][0]);
            }
        }
        j = j + 1;
    }
    None
}

/// The first whitespace index in `s[lo..hi]`, as an index of `s`.
fn first_ws_range(s: &Vec<char>, lo: usize, hi: usize) -> (r: usize)
    requires
        lo <= hi <= s.len(),
    ensures
        lo <= r <= hi,
        first_ws(s@.subrange(lo as int, hi as int), 0) == r - lo,
{
    let ghost sub = s@.subrange(lo as int, hi as int);
    let mut j = lo;
    while j < hi && !is_ws_char(s[j])
        invariant
            lo <= j <= hi <= s.len(),
            sub == s@.subrange(lo as int, hi as int),
            first_ws(sub, j - lo) == first_ws(sub, 0),
        decreases hi - j,
    {
        j = j + 1;
    }
    j
}

/// Splits the attribute list `s[lo..hi]` into pairs.
fn parse_attrs_range(s: &Vec<char>, lo: usize, hi: usize) -> (r: Vec<(Vec<char>, Vec<char>)>)
    requires
        lo <= hi <= s.len(),
    ensures
        pair_views(r@) == parse_attrs_spec(s@.subrange(lo as int, hi as int)),
{
    let mut out: Vec<(Vec<char>, Vec<char>)> = Vec::new();
    let (a0, b) = trim_range(s, lo, hi);
    let mut r = a0;
    assert(pair_views(out@) =~= Seq::<(Seq<char>, Seq<char>)>::empty());
    loop
        invariant
            a0 <= r <= b <= s.len(),
            attrs_from(s@.subrange(r as int, b as int), pair_views(out@)) == parse_attrs_spec(
                s@.subrange(lo as int, hi as int),
            ),
        decreases b - r,
    {
        let ghost rest = s@.subrange(r as int, b as int);
        let eq = match find_char_range(s, r, b, '=') {
            None => {
                return out;
            },
            Some(k) => k,
        };
        proof {
            lemma_find_from_result(rest, 0, seq!['=']);
        }
        let (na, nb) = trim_range(s, r, eq);
        assert(rest.take(eq - r) =~= s@.subrange(r as int, eq as int));
        let a = skip_ws(s, eq + 1, b);
        assert(rest.skip(eq - r + 1) =~= s@.subrange(eq + 1, b as int));
        let ghost after = s@.subrange(a as int, b as int);
        let mut value: Vec<char> = Vec::new();
        let tail_start: usize;
        if a < b && (s[a] == '"' || s[a] == '\'') {
            let q = s[a];
            assert(after.skip(1) =~= s@.subrange(a + 1, b as int));
            match find_char_range(s, a + 1, b, q) {
                Some(n) => {
                    push_range(&mut value, s, a + 1, n);
                    assert(after.skip(1).take(n - (a + 1)) =~= s@.subrange(a + 1, n as int));
                    assert(after.skip(1).skip(n - (a + 1) + 1) =~= s@.subrange(n + 1, b as int));
                    tail_start = n + 1;
                },
                None => {
                    push_range(&mut value, s, a + 1, b);
                    assert(s@.subrange(b as int, b as int) =~= Seq::<char>::empty());
                    tail_start = b;
                },
            }
        } else {
            let n = first_ws_range(s, a, b);
            push_range(&mut value, s, a, n);
            assert(after.take(n - a) =~= s@.subrange(a as int, n as int));
            assert(after.skip(n - a) =~= s@.subrange(n as int, b as int));
            tail_start = n;
        }
        assert(value_and_tail(after) == (value@, s@.subrange(tail_start as int, b as int)));
        let next = skip_ws(s, tail_start, b);
        if nb > na {
            let mut name: Vec<char> = Vec::new();
            push_range(&mut name, s, na, nb);
            let ghost before = pair_views(out@);
            out.push((name, value));
            assert(pair_views(out@) =~= before.push((s@.subrange(na as int, nb as int), value@)));
        }
        r = next;
    }
}

/// Splits an attribute list such as `class="fragment" data-x="1"` into
/// pairs.
pub fn parse_attrs(s: &str) -> (r: Vec<(String, String)>)
    ensures
        r@.map_values(|p: (String, String)| (p.0@, p.1@)) == parse_attrs_spec(s@),
{
    let v = chars_of(s);
    let pairs = parse_attrs_range(&v, 0, v.len());
    assert(v@.subrange(0, v@.len() as int) =~= v@);
    to_strings(&pairs)
}

fn to_strings(v: &Vec<(Vec<char>, Vec<char>)>) -> (r: Vec<(String, String)>)
    ensures
        r@.map_values(|p: (String, String)| (p.0@, p.1@)) == pair_views(v@),
{
    let mut r: Vec<(String, String)> = Vec::new();
    let mut k: usize = 0;
    while k < v.len()
        invariant
            k <= v.len(),
            r@.map_values(|p: (String, String)| (p.0@, p.1@)) == pair_views(v@).take(k as int),
        decreases v.len() - k,
    {
        let ghost before = r@.map_values(|p: (String, String)| (p.0@, p.1@));
        let a = string_of(&v[k].0);
        let b = string_of(&v[k].1);
        r.push((a, b));
        assert(r@.map_values(|p: (String, String)| (p.0@, p.1@)) =~= before.push((a@, b@)));
        assert(pair_views(v@)[k as int] == (v@[k as int].0@, v@[k as int].1@));
        k = k + 1;
        assert(r@.map_values(|p: (String, String)| (p.0@, p.1@)) =~= pair_views(v@).take(
            k as int,
        ));
    }
    assert(pair_views(v@).take(v.len() as int) =~= pair_views(v@));
    r
}

fn from_strings(v: &[(String, String)]) -> (r: Vec<(Vec<char>, Vec<char>)>)
    ensures
        pair_views(r@) == v@.map_values(|p: (String, String)| (p.0@, p.1@)),
{
    let mut r: Vec<(Vec<char>, Vec<char>)> = Vec::new();
    let mut k: usize = 0;
    while k < v.len()
        invariant
            k <= v.len(),
            pair_views(r@) == v@.map_values(|p: (String, String)| (p.0@, p.1@)).take(k as int),
        decreases v.len() - k,
    {
        let ghost before = pair_views(r@);
        let a = chars_of(v[k].0.as_str());
        let b = chars_of(v[k].1.as_str());
        r.push((a, b));
        assert(pair_views(r@) =~= before.push((a@, b@)));
        assert(v@.map_values(|p: (String, String)| (p.0@, p.1@))[k as int] == (v@[k as int].0@, v@[k as int].1@));
        k = k + 1;
        assert(pair_views(r@) =~= v@.map_values(|p: (String, String)| (p.0@, p.1@)).take(
            k as int,
        ));
    }
    assert(v@.map_values(|p: (String, String)| (p.0@, p.1@)).take(v.len() as int)
        =~= v@.map_values(|p: (String, String)| (p.0@, p.1@)));
    r
}

// ---------------------------------------------------------------------------
// Merging and rendering

/// The first index at or after `k` of a pair named `n`.
pub open spec fn find_name(list: Seq<(Seq<char>, Seq<char>)>, n: Seq<char>, k: int) -> Option<int>
    decreases list.len() - k,
{
    if k < 0 || k >= list.len() {
        None
    } else if list[k].0 == n {
        Some(k)
    } else {
        find_name(list, n, k + 1)
    }
}

/// `a` merged into `list`: `class` is appended to the one already there,
/// any other attribute replaces it, a new one goes at the end.
pub open spec fn merge_one(list: Seq<(Seq<char>, Seq<char>)>, a: (Seq<char>, Seq<char>)) -> Seq<
    (Seq<char>, Seq<char>),
> {
    match find_name(list, a.0, 0) {
        Some(i) => list.update(
            i,
            (
                a.0,
                if a.0 == "class"@ {
                    list[i].1 + seq![' '] + a.1
                } else {
                    a.1
                },
            ),
        ),
        None => list.push(a),
    }
}

pub open spec fn merge_all(list: Seq<(Seq<char>, Seq<char>)>, attrs: Seq<(Seq<char>, Seq<char>)>) -> Seq<
    (Seq<char>, Seq<char>),
>
    decreases attrs.len(),
{
    if attrs.len() == 0 {
        list
    } else {
        merge_one(merge_all(list, attrs.drop_last()), attrs.last())
    }
}

/// ` name="value"` for each pair.
pub open spec fn render_pairs(list: Seq<(Seq<char>, Seq<char>)>) -> Seq<char>
    decreases list.len(),
{
    if list.len() == 0 {
        Seq::empty()
    } else {
        render_pairs(list.drop_last()) + seq![' '] + list.last().0 + seq!['=', '"'] + list.last().1
            + seq!['"']
    }
}

proof fn lemma_find_name(list: Seq<(Seq<char>, Seq<char>)>, n: Seq<char>, k: int)
    requires
        0 <= k,
    ensures
        find_name(list, n, k) matches Some(i) ==> k <= i < list.len() && list[i].0 == n,
    decreases list.len() - k,
{
    if k < list.len() && list[k].0 != n {
        lemma_find_name(list, n, k + 1);
    }
}

/// Merging adds and never drops: every attribute the tag had keeps its
/// name and its place, a class list it had stays at the front of the
/// merged one, and every attribute asked for is there.
pub proof fn lemma_merge_keeps_what_was_there(
    list: Seq<(Seq<char>, Seq<char>)>,
    attrs: Seq<(Seq<char>, Seq<char>)>,
)
    ensures
        merge_all(list, attrs).len() >= list.len(),
        forall|i: int|
            0 <= i < list.len() ==> #[trigger] merge_all(list, attrs)[i].0 == list[i].0 && (
            list[i].0 == "class"@ ==> crate::text::starts_with(
                merge_all(list, attrs)[i].1,
                list[i].1,
            )),
        forall|j: int|
            0 <= j < attrs.len() ==> exists|i: int|
                0 <= i < merge_all(list, attrs).len() && #[trigger] merge_all(list, attrs)[i].0
                    == #[trigger] attrs[j].0,
    decreases attrs.len(),
{
    if attrs.len() > 0 {
        let init = attrs.drop_last();
        let a = attrs.last();
        lemma_merge_keeps_what_was_there(list, init);
        let m = merge_all(list, init);
        let r = merge_one(m, a);
        lemma_find_name(m, a.0, 0);
        assert forall|i: int| 0 <= i < list.len() implies #[trigger] r[i].0 == list[i].0 && (
        list[i].0 == "class"@ ==> crate::text::starts_with(r[i].1, list[i].1)) by {
            assert(m[i].0 == list[i].0);
            if list[i].0 == "class"@ {
                assert(crate::text::starts_with(m[i].1, list[i].1));
                match find_name(m, a.0, 0) {
                    Some(k) => {
                        if k == i && a.0 == "class"@ {
                            let v = m[i].1 + seq![' '] + a.1;
                            assert(v.take(list[i].1.len() as int) =~= m[i].1.take(
                                list[i].1.len() as int,
                            ));
                        }
                    },
                    None => {},
                }
            }
        }
        assert forall|j: int| 0 <= j < attrs.len() implies exists|i: int|
            0 <= i < r.len() && #[trigger] r[i].0 == #[trigger] attrs[j].0 by {
            if j == attrs.len() - 1 {
                match find_name(m, a.0, 0) {
                    Some(k) => {
                        assert(r[k].0 == attrs[j].0);
                    },
                    None => {
                        assert(r[m.len() as int].0 == attrs[j].0);
                    },
                }
            } else {
                assert(init[j] == attrs[j]);
                let i = choose|i: int| 0 <= i < m.len() && #[trigger] m[i].0 == init[j].0;
                assert(r[i].0 == attrs[j].0);
            }
        }
    } else {
        assert forall|i: int| 0 <= i < list.len() implies #[trigger] merge_all(list, attrs)[i].0
            == list[i].0 && (list[i].0 == "class"@ ==> crate::text::starts_with(
            merge_all(list, attrs)[i].1,
            list[i].1,
        )) by {
            assert(list[i].1.take(list[i].1.len() as int) =~= list[i].1);
        }
    }
}

fn merge_one_exec(list: &mut Vec<(Vec<char>, Vec<char>)>, a: &(Vec<char>, Vec<char>))
    ensures
        pair_views(final(list)@) == merge_one(pair_views(old(list)@), (a.0@, a.1@)),
{
    let ghost l0 = pair_views(list@);
    let mut k: usize = 0;
    while k < list.len()
        invariant
            k <= list.len(),
            list@ == old(list)@,
            l0 == pair_views(list@),
            find_name(l0, a.0@, k as int) == find_name(l0, a.0@, 0),
        decreases list.len() - k,
    {
        assert(l0[k as int] == (list@[k as int].0@, list@[k as int].1@));
        if crate::text::same_chars(&list[k].0, &a.0) {
            let mut v: Vec<char> = Vec::new();
            if crate::text::eq_str(&a.0, "class") {
                push_all(&mut v, &list[k].1);
                v.push(' ');
                push_all(&mut v, &a.1);
                assert(v@ =~= l0[k as int].1 + seq![' '] + a.1@);
            } else {
                push_all(&mut v, &a.1);
                assert(v@ =~= a.1@);
            }
            let mut n: Vec<char> = Vec::new();
            push_all(&mut n, &a.0);
            list.set(k, (n, v));
            assert(pair_views(list@) =~= l0.update(k as int, (a.0@, v@)));
            return;
        }
        k = k + 1;
    }
    let mut n: Vec<char> = Vec::new();
    push_all(&mut n, &a.0);
    let mut v: Vec<char> = Vec::new();
    push_all(&mut v, &a.1);
    list.push((n, v));
    assert(pair_views(list@) =~= l0.push((a.0@, a.1@)));
}

fn merge_all_exec(list: &mut Vec<(Vec<char>, Vec<char>)>, attrs: &Vec<(Vec<char>, Vec<char>)>)
    ensures
        pair_views(final(list)@) == merge_all(pair_views(old(list)@), pair_views(attrs@)),
{
    let mut k: usize = 0;
    while k < attrs.len()
        invariant
            k <= attrs.len(),
            pair_views(list@) == merge_all(pair_views(old(list)@), pair_views(attrs@).take(k as int)),
        decreases attrs.len() - k,
    {
        merge_one_exec(list, &attrs[k]);
        assert(pair_views(attrs@).take(k + 1).drop_last() =~= pair_views(attrs@).take(k as int));
        k = k + 1;
    }
    assert(pair_views(attrs@).take(attrs.len() as int) =~= pair_views(attrs@));
}

fn render_pairs_exec(out: &mut Vec<char>, list: &Vec<(Vec<char>, Vec<char>)>)
    ensures
        final(out)@ == old(out)@ + render_pairs(pair_views(list@)),
{
    let mut k: usize = 0;
    while k < list.len()
        invariant
            k <= list.len(),
            out@ == old(out)@ + render_pairs(pair_views(list@).take(k as int)),
        decreases list.len() - k,
    {
        let ghost before = out@;
        out.push(' ');
        push_all(out, &list[k].0);
        out.push('=');
        out.push('"');
        push_all(out, &list[k].1);
        out.push('"');
        assert(pair_views(list@).take(k + 1).drop_last() =~= pair_views(list@).take(k as int));
        k = k + 1;
        assert(out@ =~= old(out)@ + render_pairs(pair_views(list@).take(k as int)));
    }
    assert(pair_views(list@).take(list.len() as int) =~= pair_views(list@));
}

/// Renders attributes for a `<section>` opening tag: each as ` name="value"`
/// with `class` values merged, or nothing when there are none.
pub open spec fn render_spec(attrs: Seq<(Seq<char>, Seq<char>)>) -> Seq<char> {
    render_pairs(merge_all(Seq::empty(), attrs))
}

/// Renders attributes for a `<section>` opening tag, including the leading
/// space, or an empty string when there are none.
pub fn render(attrs: &[(String, String)]) -> (r: String)
    ensures
        r@ == render_spec(attrs@.map_values(|p: (String, String)| (p.0@, p.1@))),
{
    let a = from_strings(attrs);
    let mut list: Vec<(Vec<char>, Vec<char>)> = Vec::new();
    assert(pair_views(list@) =~= Seq::<(Seq<char>, Seq<char>)>::empty());
    merge_all_exec(&mut list, &a);
    let mut out: Vec<char> = Vec::new();
    render_pairs_exec(&mut out, &list);
    assert(out@ =~= render_pairs(pair_views(list@)));
    string_of(&out)
}

/// `s` with every leading `c` removed.
pub open spec fn strip_lead(s: Seq<char>, c: char) -> Seq<char>
    decreases s.len(),
{
    if s.len() > 0 && s[0] == c {
        strip_lead(s.drop_first(), c)
    } else {
        s
    }
}

/// `s` with every trailing `c` removed.
pub open spec fn strip_trail(s: Seq<char>, c: char) -> Seq<char>
    decreases s.len(),
{
    if s.len() > 0 && s.last() == c {
        strip_trail(s.drop_last(), c)
    } else {
        s
    }
}

/// An opening tag rewritten to carry `attrs`. `class` is merged with
/// whatever the tag already has, while any other attribute is replaced.
pub open spec fn with_attrs_spec(tag: Seq<char>, attrs: Seq<(Seq<char>, Seq<char>)>) -> Seq<char> {
    let inner = strip_trail(strip_trail(strip_lead(tag, '<'), '>'), '/');
    let name_len = alnum_end(inner, 0, inner.len() as int);
    let existing = parse_attrs_spec(inner.skip(name_len));
    let close = if tag.len() >= 2 && tag[tag.len() - 2] == '/' && tag.last() == '>' {
        seq![' ', '/', '>']
    } else {
        seq!['>']
    };
    seq!['<'] + inner.take(name_len) + render_pairs(merge_all(existing, attrs)) + close
}

/// Rewrites the opening tag `h[lo..hi]` to carry `attrs`.
fn with_attrs(h: &Vec<char>, lo: usize, hi: usize, attrs: &Vec<(Vec<char>, Vec<char>)>) -> (r: Vec<
    char,
>)
    requires
        lo <= hi <= h.len(),
    ensures
        r@ == with_attrs_spec(h@.subrange(lo as int, hi as int), pair_views(attrs@)),
{
    let ghost tag = h@.subrange(lo as int, hi as int);
    let mut a = lo;
    while a < hi && h[a] == '<'
        invariant
            lo <= a <= hi <= h.len(),
            strip_lead(h@.subrange(a as int, hi as int), '<') == strip_lead(tag, '<'),
        decreases hi - a,
    {
        assert(h@.subrange(a as int, hi as int).drop_first() =~= h@.subrange(a + 1, hi as int));
        a = a + 1;
    }
    let mut b = hi;
    while b > a && h[b - 1] == '>'
        invariant
            a <= b <= hi <= h.len(),
            strip_trail(h@.subrange(a as int, b as int), '>') == strip_trail(
                strip_lead(tag, '<'),
                '>',
            ),
        decreases b - a,
    {
        assert(h@.subrange(a as int, b as int).drop_last() =~= h@.subrange(a as int, b - 1));
        b = b - 1;
    }
    while b > a && h[b - 1] == '/'
        invariant
            a <= b <= hi <= h.len(),
            strip_trail(h@.subrange(a as int, b as int), '/') == strip_trail(
                strip_trail(strip_lead(tag, '<'), '>'),
                '/',
            ),
        decreases b - a,
    {
        assert(h@.subrange(a as int, b as int).drop_last() =~= h@.subrange(a as int, b - 1));
        b = b - 1;
    }
    let ghost inner = h@.subrange(a as int, b as int);
    let ne = alnum_end_exec(h, a, b);
    assert(alnum_end(inner, 0, inner.len() as int) == ne - a) by {
        lemma_alnum_end_shift(h@, a as int, b as int, a as int);
    }
    let mut existing = parse_attrs_range(h, ne, b);
    assert(inner.skip(ne - a) =~= h@.subrange(ne as int, b as int));
    merge_all_exec(&mut existing, attrs);
    let mut out: Vec<char> = Vec::new();
    out.push('<');
    push_range(&mut out, h, a, ne);
    assert(inner.take(ne - a) =~= h@.subrange(a as int, ne as int));
    render_pairs_exec(&mut out, &existing);
    let ghost before = out@;
    if hi - lo >= 2 && h[hi - 2] == '/' && h[hi - 1] == '>' {
        out.push(' ');
        out.push('/');
        out.push('>');
        assert(out@ =~= before + seq![' ', '/', '>']);
    } else {
        out.push('>');
        assert(out@ =~= before + seq!['>']);
    }
    out
}

} // verus!

verus! {

// ---------------------------------------------------------------------------
// Applying the comments

pub open spec fn element_prefix() -> Seq<char> {
    seq!['.', 'e', 'l', 'e', 'm', 'e', 'n', 't', ':']
}

pub open spec fn slide_prefix() -> Seq<char> {
    seq!['.', 's', 'l', 'i', 'd', 'e', ':']
}

/// The first tag from the `k`th on that is a closing tag starting at `at`.
pub open spec fn close_at(tags: Seq<Tag>, at: int, k: int) -> Option<int>
    decreases tags.len() - k,
{
    if k < 0 || k >= tags.len() {
        None
    } else if tags[k].start == at && tags[k].kind == Kind::Close {
        Some(k)
    } else {
        close_at(tags, at, k + 1)
    }
}

/// The first tag from the `k`th on that ends at `e`.
pub open spec fn ending_at(tags: Seq<Tag>, e: int, k: int) -> Option<int>
    decreases tags.len() - k,
{
    if k < 0 || k >= tags.len() {
        None
    } else if tags[k].end == e {
        Some(k)
    } else {
        ending_at(tags, e, k + 1)
    }
}

/// The tag an `.element` comment at `start..end` applies to. A closing tag
/// straight after the comment means the comment sits inside the element it
/// closes; otherwise the comment follows a sibling, and the target is
/// whatever ended just before it, an image or other void element being its
/// own target.
pub open spec fn target(
    h: Seq<char>,
    tags: Seq<Tag>,
    paired: Seq<Option<usize>>,
    start: int,
    end: int,
) -> Option<usize> {
    let after = trim_start(h.skip(end));
    if after.len() >= 2 && after[0] == '<' && after[1] == '/' {
        let at = h.len() - after.len();
        match close_at(tags, at, 0) {
            Some(c) => paired[c],
            None => None,
        }
    } else {
        let before = trim_end(h.take(start));
        match ending_at(tags, before.len() as int, 0) {
            Some(j) => match tags[j].kind {
                Kind::Close => paired[j],
                Kind::Void => Some(j as usize),
                Kind::Open => None,
            },
            None => None,
        }
    }
}

/// The slide attributes and edits of the attribute comments from index `i`
/// on, or `None` where a comment's `-->` overlaps its `<!--`.
pub open spec fn comments_from(
    h: Seq<char>,
    tags: Seq<Tag>,
    paired: Seq<Option<usize>>,
    i: int,
    slide: Seq<(Seq<char>, Seq<char>)>,
    edits: Seq<(usize, usize, Seq<char>)>,
) -> Option<(Seq<(Seq<char>, Seq<char>)>, Seq<(usize, usize, Seq<char>)>)>
    decreases h.len() + 1 - i,
{
    if i < 0 || i > h.len() {
        Some((slide, edits))
    } else {
        match find_from(h, i, comment_open()) {
            None => Some((slide, edits)),
            Some(start) => {
                proof {
                    lemma_find_from_result(h, i, comment_open());
                }
                match find_from(h, start, comment_close()) {
                    None => Some((slide, edits)),
                    Some(cl) => {
                        proof {
                            lemma_find_from_result(h, start, comment_close());
                        }
                        if cl < start + 4 {
                            None
                        } else {
                            let end = cl + 3;
                            let body = trim(h.subrange(start + 4, cl));
                            let is_element = crate::text::starts_with(body, element_prefix());
                            let is_slide = crate::text::starts_with(body, slide_prefix());
                            if is_element || is_slide {
                                let rest = if is_element {
                                    body.skip(9)
                                } else {
                                    body.skip(7)
                                };
                                let attrs = parse_attrs_spec(rest);
                                let edits1 = edits.push((start as usize, end as usize, Seq::empty()));
                                if is_slide && !is_element {
                                    comments_from(h, tags, paired, end, slide + attrs, edits1)
                                } else {
                                    let edits2 = match target(h, tags, paired, start, end) {
                                        Some(t) => edits1.push(
                                            (
                                                tags[t as int].start,
                                                tags[t as int].end,
                                                with_attrs_spec(
                                                    h.subrange(
                                                        tags[t as int].start as int,
                                                        tags[t as int].end as int,
                                                    ),
                                                    attrs,
                                                ),
                                            ),
                                        ),
                                        None => edits1,
                                    };
                                    comments_from(h, tags, paired, end, slide, edits2)
                                }
                            } else {
                                comments_from(h, tags, paired, end, slide, edits)
                            }
                        }
                    },
                }
            },
        }
    }
}

/// `x` placed into edits sorted by descending start, after those starting
/// at the same place.
pub open spec fn insert_edit(sorted: Seq<(usize, usize, Seq<char>)>, x: (usize, usize, Seq<char>)) -> Seq<
    (usize, usize, Seq<char>),
>
    decreases sorted.len(),
{
    if sorted.len() == 0 {
        seq![x]
    } else if x.0 > sorted.last().0 {
        insert_edit(sorted.drop_last(), x).push(sorted.last())
    } else {
        sorted.push(x)
    }
}

/// Edits sorted back to front, ties kept in order.
pub open spec fn sort_edits(e: Seq<(usize, usize, Seq<char>)>) -> Seq<(usize, usize, Seq<char>)>
    decreases e.len(),
{
    if e.len() == 0 {
        Seq::empty()
    } else {
        insert_edit(sort_edits(e.drop_last()), e.last())
    }
}

/// `h` with each edit's range replaced, in order, or `None` where a range
/// does not lie within the text at that point.
pub open spec fn apply_edits(h: Seq<char>, edits: Seq<(usize, usize, Seq<char>)>) -> Option<Seq<char>>
    decreases edits.len(),
{
    if edits.len() == 0 {
        Some(h)
    } else {
        let (s, e, r) = edits[0];
        if s <= e && e <= h.len() {
            apply_edits(h.take(s as int) + r + h.skip(e as int), edits.drop_first())
        } else {
            None
        }
    }
}

/// One slide's HTML with the attribute comments removed and `.element`
/// attributes applied, plus the `.slide` attributes; `None` for the HTML the
/// edits cannot be applied to.
pub open spec fn apply_spec(h: Seq<char>) -> Option<(Seq<char>, Seq<(Seq<char>, Seq<char>)>)> {
    let tags = tags_spec(h);
    let paired = pairs_spec(h, tags);
    match comments_from(h, tags, paired, 0, Seq::empty(), Seq::empty()) {
        None => None,
        Some((slide, edits)) => match apply_edits(h, sort_edits(edits)) {
            None => None,
            Some(out) => Some((out, slide)),
        },
    }
}

pub open spec fn edit_views(v: Seq<(usize, usize, Vec<char>)>) -> Seq<(usize, usize, Seq<char>)> {
    v.map_values(|x: (usize, usize, Vec<char>)| (x.0, x.1, x.2@))
}

#[verifier::loop_isolation(false)]
fn target_exec(
    h: &Vec<char>,
    tags: &Vec<Tag>,
    paired: &Vec<Option<usize>>,
    start: usize,
    end: usize,
) -> (r: Option<usize>)
    requires
        start <= end <= h.len(),
        paired@.len() == tags@.len(),
        forall|k: int|
            0 <= k < paired@.len() ==> (#[trigger] paired@[k] matches Some(j) ==> j < tags@.len()),
    ensures
        r == target(h@, tags@, paired@, start as int, end as int),
        r matches Some(t) ==> t < tags@.len(),
{
    let n = h.len();
    let a = skip_ws(h, end, n);
    assert(h@.skip(end as int) =~= h@.subrange(end as int, n as int));
    let ghost after = h@.subrange(a as int, n as int);
    if n - a >= 2 {
        assert(after[0] == h@[a as int]);
        assert(after[1] == h@[a + 1]);
    }
    if n - a >= 2 && h[a] == '<' && h[a + 1] == '/' {
        let mut k: usize = 0;
        while k < tags.len()
            invariant
                k <= tags.len(),
                paired@.len() == tags@.len(),
                close_at(tags@, a as int, k as int) == close_at(tags@, a as int, 0),
            decreases tags.len() - k,
        {
            if tags[k].start == a && tags[k].kind == Kind::Close {
                return paired[k];
            }
            k = k + 1;
        }
        None
    } else {
        let bl = skip_ws_back(h, 0, start);
        assert(h@.take(start as int) =~= h@.subrange(0, start as int));
        let mut k: usize = 0;
        while k < tags.len()
            invariant
                k <= tags.len(),
                paired@.len() == tags@.len(),
                ending_at(tags@, bl as int, k as int) == ending_at(tags@, bl as int, 0),
            decreases tags.len() - k,
        {
            if tags[k].end == bl {
                return match tags[k].kind {
                    Kind::Close => paired[k],
                    Kind::Void => Some(k),
                    Kind::Open => None,
                };
            }
            k = k + 1;
        }
        None
    }
}

fn starts_with_range(s: &Vec<char>, lo: usize, hi: usize, p: &Vec<char>) -> (r: bool)
    requires
        lo <= hi <= s.len(),
    ensures
        r == crate::text::starts_with(s@.subrange(lo as int, hi as int), p@),
{
    if hi - lo < p.len() {
        return false;
    }
    let m = crate::text::matches_at_exec(s, lo, p);
    assert(s@.subrange(lo as int, hi as int).take(p@.len() as int) =~= s@.subrange(
        lo as int,
        lo + p@.len(),
    ));
    m
}

fn element_prefix_exec() -> (v: Vec<char>)
    ensures
        v@ == element_prefix(),
{
    let v = chars_of(".element:");
    proof {
        reveal_strlit(".element:");
    }
    assert(v@ =~= element_prefix());
    v
}

fn slide_prefix_exec() -> (v: Vec<char>)
    ensures
        v@ == slide_prefix(),
{
    let v = chars_of(".slide:");
    proof {
        reveal_strlit(".slide:");
    }
    assert(v@ =~= slide_prefix());
    v
}

fn insert_edit_exec(v: &mut Vec<(usize, usize, Vec<char>)>, x: (usize, usize, Vec<char>))
    ensures
        edit_views(final(v)@) == insert_edit(edit_views(old(v)@), (x.0, x.1, x.2@)),
{
    let ghost xv = (x.0, x.1, x.2@);
    let ghost ev = edit_views(v@);
    let mut p = v.len();
    assert(ev.take(p as int) =~= ev);
    assert(ev.skip(p as int) =~= Seq::<(usize, usize, Seq<char>)>::empty());
    while p > 0 && x.0 > v[p - 1].0
        invariant
            p <= v.len(),
            v@ == old(v)@,
            ev == edit_views(v@),
            xv == (x.0, x.1, x.2@),
            insert_edit(ev, xv) == insert_edit(ev.take(p as int), xv) + ev.skip(p as int),
        decreases p,
    {
        assert(ev[p - 1] == (v@[p - 1].0, v@[p - 1].1, v@[p - 1].2@));
        assert(ev.take(p as int).drop_last() =~= ev.take(p - 1));
        assert(ev.take(p as int).last() == ev[p - 1]);
        assert(insert_edit(ev.take(p as int), xv) == insert_edit(ev.take(p as int).drop_last(), xv).push(
            ev.take(p as int).last(),
        ));
        assert(insert_edit(ev.take(p - 1), xv).push(ev[p - 1]) + ev.skip(p as int) =~= insert_edit(
            ev.take(p - 1),
            xv,
        ) + ev.skip(p - 1));
        p = p - 1;
    }
    v.insert(p, x);
    assert(edit_views(v@) =~= ev.take(p as int) + seq![xv] + ev.skip(p as int));
    if p == 0 {
        assert(ev.take(0) =~= Seq::<(usize, usize, Seq<char>)>::empty());
    } else {
        assert(insert_edit(ev.take(p as int), xv) =~= ev.take(p as int).push(xv));
    }
}

fn apply_edits_exec(h: &Vec<char>, edits: &Vec<(usize, usize, Vec<char>)>) -> (r: Option<Vec<char>>)
    ensures
        match r {
            Some(v) => apply_edits(h@, edit_views(edits@)) == Some(v@),
            None => apply_edits(h@, edit_views(edits@)) is None,
        },
{
    let mut cur: Vec<char> = Vec::new();
    push_all(&mut cur, h);
    assert(cur@ =~= h@);
    assert(edit_views(edits@).skip(0) =~= edit_views(edits@));
    let mut k: usize = 0;
    while k < edits.len()
        invariant
            k <= edits.len(),
            apply_edits(cur@, edit_views(edits@).skip(k as int)) == apply_edits(
                h@,
                edit_views(edits@),
            ),
        decreases edits.len() - k,
    {
        let s = edits[k].0;
        let e = edits[k].1;
        let ghost rest = edit_views(edits@).skip(k as int);
        assert(rest[0] == (s, e, edits@[k as int].2@));
        assert(rest.drop_first() =~= edit_views(edits@).skip(k + 1));
        if !(s <= e && e <= cur.len()) {
            return None;
        }
        let mut next: Vec<char> = Vec::new();
        push_range(&mut next, &cur, 0, s);
        push_all(&mut next, &edits[k].2);
        push_range(&mut next, &cur, e, cur.len());
        assert(next@ =~= cur@.take(s as int) + edits@[k as int].2@ + cur@.skip(e as int));
        cur = next;
        k = k + 1;
    }
    assert(edit_views(edits@).skip(edits.len() as int) =~= Seq::<(usize, usize, Seq<char>)>::empty());
    Some(cur)
}

/// Applies the attribute comments in one slide's HTML, or `None` where the
/// comments cannot be applied (a `-->` overlapping its own `<!--`, or edits
/// that overlap).
pub fn apply_chars(h: &Vec<char>) -> (r: Option<(Vec<char>, Vec<(Vec<char>, Vec<char>)>)>)
    ensures
        match r {
            Some((out, slide)) => apply_spec(h@) == Some((out@, pair_views(slide@))),
            None => apply_spec(h@) is None,
        },
{
    let all = tags(h);
    let paired = pairs(h, &all);
    let co = comment_open_exec();
    let cc = comment_close_exec();
    let ep = element_prefix_exec();
    let sp = slide_prefix_exec();
    let mut slide: Vec<(Vec<char>, Vec<char>)> = Vec::new();
    let mut edits: Vec<(usize, usize, Vec<char>)> = Vec::new();
    let mut i: usize = 0;
    assert(pair_views(slide@) =~= Seq::<(Seq<char>, Seq<char>)>::empty());
    assert(edit_views(edits@) =~= Seq::<(usize, usize, Seq<char>)>::empty());
    loop
        invariant
            i <= h.len(),
            all@ == tags_spec(h@),
            tags_within(all@, h@.len()),
            paired@ == pairs_spec(h@, all@),
            paired@.len() == all@.len(),
            forall|k: int|
                0 <= k < paired@.len() ==> (#[trigger] paired@[k] matches Some(j) ==> j
                    < all@.len()),
            co@ == comment_open(),
            cc@ == comment_close(),
            ep@ == element_prefix(),
            sp@ == slide_prefix(),
            comments_from(h@, all@, paired@, i as int, pair_views(slide@), edit_views(edits@))
                == comments_from(h@, all@, paired@, 0, Seq::empty(), Seq::empty()),
        ensures
            comments_from(h@, all@, paired@, 0, Seq::empty(), Seq::empty()) == Some(
                (pair_views(slide@), edit_views(edits@)),
            ),
        decreases h.len() - i,
    {
        let start = match find_from_exec(h, i, &co) {
            None => {
                break;
            },
            Some(s) => s,
        };
        proof {
            lemma_find_from_result(h@, i as int, comment_open());
        }
        let cl = match find_from_exec(h, start, &cc) {
            None => {
                break;
            },
            Some(c) => c,
        };
        proof {
            lemma_find_from_result(h@, start as int, comment_close());
        }
        if cl < start + 4 {
            return None;
        }
        let end = cl + 3;
        let (ba, bb) = trim_range(h, start + 4, cl);
        let is_element = starts_with_range(h, ba, bb, &ep);
        let is_slide = starts_with_range(h, ba, bb, &sp);
        if is_element || is_slide {
            let rest_lo = if is_element {
                ba + 9
            } else {
                ba + 7
            };
            assert(h@.subrange(ba as int, bb as int).skip(rest_lo - ba) =~= h@.subrange(
                rest_lo as int,
                bb as int,
            ));
            let attrs = parse_attrs_range(h, rest_lo, bb);
            let ghost ev0 = edit_views(edits@);
            edits.push((start, end, Vec::new()));
            assert(edit_views(edits@) =~= ev0.push((start, end, Seq::empty())));
            if is_slide && !is_element {
                let ghost sv = pair_views(slide@);
                let mut k: usize = 0;
                while k < attrs.len()
                    invariant
                        k <= attrs.len(),
                        pair_views(slide@) == sv + pair_views(attrs@).take(k as int),
                    decreases attrs.len() - k,
                {
                    let mut a: Vec<char> = Vec::new();
                    push_all(&mut a, &attrs[k].0);
                    let mut b: Vec<char> = Vec::new();
                    push_all(&mut b, &attrs[k].1);
                    let ghost before = pair_views(slide@);
                    slide.push((a, b));
                    assert(pair_views(slide@) =~= before.push((a@, b@)));
                    k = k + 1;
                    assert(pair_views(slide@) =~= sv + pair_views(attrs@).take(k as int));
                }
                assert(pair_views(attrs@).take(attrs.len() as int) =~= pair_views(attrs@));
            } else {
                match target_exec(h, &all, &paired, start, end) {
                    Some(t) => {
                        let tg = all[t];
                        assert(all@[t as int] == tg);
                        let rewritten = with_attrs(h, tg.start, tg.end, &attrs);
                        let ghost ev1 = edit_views(edits@);
                        edits.push((tg.start, tg.end, rewritten));
                        assert(edit_views(edits@) =~= ev1.push((tg.start, tg.end, rewritten@)));
                    },
                    None => {},
                }
            }
        }
        i = end;
    }
    let ghost ev = edit_views(edits@);
    let mut sorted: Vec<(usize, usize, Vec<char>)> = Vec::new();
    let mut k: usize = 0;
    assert(edit_views(sorted@) =~= sort_edits(ev.take(0)));
    while k < edits.len()
        invariant
            k <= edits.len(),
            ev == edit_views(edits@),
            edit_views(sorted@) == sort_edits(ev.take(k as int)),
        decreases edits.len() - k,
    {
        let mut r: Vec<char> = Vec::new();
        push_all(&mut r, &edits[k].2);
        insert_edit_exec(&mut sorted, (edits[k].0, edits[k].1, r));
        assert(ev.take(k + 1).drop_last() =~= ev.take(k as int));
        assert(ev[k as int] == (edits@[k as int].0, edits@[k as int].1, edits@[k as int].2@));
        k = k + 1;
    }
    assert(ev.take(edits.len() as int) =~= ev);
    match apply_edits_exec(h, &sorted) {
        None => None,
        Some(out) => Some((out, slide)),
    }
}

/// HTML without a comment in it is left as it is, and asks nothing of its
/// slide: only attribute comments change the page.
pub proof fn lemma_html_without_comments_is_unchanged(h: Seq<char>)
    requires
        forall|i: int| 0 <= i ==> !matches_at(h, i, comment_open()),
    ensures
        apply_spec(h) == Some((h, Seq::<(Seq<char>, Seq<char>)>::empty())),
{
    lemma_find_from_result(h, 0, comment_open());
    if find_from(h, 0, comment_open()) is Some {
        let k = find_from(h, 0, comment_open())->0;
        assert(matches_at(h, k, comment_open()));
    }
    assert(sort_edits(Seq::<(usize, usize, Seq<char>)>::empty()) =~= Seq::<(usize, usize, Seq<char>)>::empty());
}

/// The attributes of every `.slide` comment of `h` from index `i` on, in
/// the order the comments come: each comment is `<!--` up to the next
/// `-->`, and it is a `.slide` comment when its trimmed text starts with
/// `.slide:`; its attributes are parsed from what follows that.
pub open spec fn slide_attrs_from(h: Seq<char>, i: int) -> Seq<(Seq<char>, Seq<char>)>
    decreases h.len() + 1 - i,
{
    if i < 0 || i > h.len() {
        Seq::empty()
    } else {
        match find_from(h, i, comment_open()) {
            None => Seq::empty(),
            Some(start) => {
                proof {
                    lemma_find_from_result(h, i, comment_open());
                }
                match find_from(h, start, comment_close()) {
                    None => Seq::empty(),
                    Some(cl) => {
                        proof {
                            lemma_find_from_result(h, start, comment_close());
                        }
                        if cl < start + 4 {
                            Seq::empty()
                        } else {
                            let body = trim(h.subrange(start + 4, cl));
                            let rest = slide_attrs_from(h, cl + 3);
                            if crate::text::starts_with(body, slide_prefix()) {
                                parse_attrs_spec(body.skip(7)) + rest
                            } else {
                                rest
                            }
                        }
                    },
                }
            },
        }
    }
}

proof fn lemma_prefixes_exclusive(body: Seq<char>)
    ensures
        !(crate::text::starts_with(body, slide_prefix()) && crate::text::starts_with(
            body,
            element_prefix(),
        )),
{
    if crate::text::starts_with(body, slide_prefix()) && crate::text::starts_with(
        body,
        element_prefix(),
    ) {
        assert(body.take(7)[1] == slide_prefix()[1]);
        assert(body.take(9)[1] == element_prefix()[1]);
    }
}

proof fn lemma_comments_collect_slide_attrs(
    h: Seq<char>,
    tags: Seq<Tag>,
    paired: Seq<Option<usize>>,
    i: int,
    slide: Seq<(Seq<char>, Seq<char>)>,
    edits: Seq<(usize, usize, Seq<char>)>,
)
    ensures
        comments_from(h, tags, paired, i, slide, edits) matches Some((s, _)) ==> s == slide
            + slide_attrs_from(h, i),
    decreases h.len() + 1 - i,
{
    if i < 0 || i > h.len() {
        assert(slide + Seq::<(Seq<char>, Seq<char>)>::empty() =~= slide);
    } else {
        match find_from(h, i, comment_open()) {
            None => {
                assert(slide + Seq::<(Seq<char>, Seq<char>)>::empty() =~= slide);
            },
            Some(start) => {
                lemma_find_from_result(h, i, comment_open());
                match find_from(h, start, comment_close()) {
                    None => {
                        assert(slide + Seq::<(Seq<char>, Seq<char>)>::empty() =~= slide);
                    },
                    Some(cl) => {
                        lemma_find_from_result(h, start, comment_close());
                        if cl >= start + 4 {
                            let end = cl + 3;
                            let body = trim(h.subrange(start + 4, cl));
                            lemma_prefixes_exclusive(body);
                            let is_element = crate::text::starts_with(body, element_prefix());
                            let is_slide = crate::text::starts_with(body, slide_prefix());
                            let rest = if is_element {
                                body.skip(9)
                            } else {
                                body.skip(7)
                            };
                            let attrs = parse_attrs_spec(rest);
                            let edits1 = edits.push((start as usize, end as usize, Seq::empty()));
                            if is_element || is_slide {
                                if is_slide && !is_element {
                                    lemma_comments_collect_slide_attrs(
                                        h,
                                        tags,
                                        paired,
                                        end,
                                        slide + attrs,
                                        edits1,
                                    );
                                    assert(slide + attrs + slide_attrs_from(h, end) =~= slide + (
                                    attrs + slide_attrs_from(h, end)));
                                } else {
                                    let edits2 = match target(h, tags, paired, start, end) {
                                        Some(t) => edits1.push(
                                            (
                                                tags[t as int].start,
                                                tags[t as int].end,
                                                with_attrs_spec(
                                                    h.subrange(
                                                        tags[t as int].start as int,
                                                        tags[t as int].end as int,
                                                    ),
                                                    attrs,
                                                ),
                                            ),
                                        ),
                                        None => edits1,
                                    };
                                    lemma_comments_collect_slide_attrs(
                                        h,
                                        tags,
                                        paired,
                                        end,
                                        slide,
                                        edits2,
                                    );
                                }
                            } else {
                                lemma_comments_collect_slide_attrs(h, tags, paired, end, slide, edits);
                            }
                        }
                    },
                }
            },
        }
    }
}

/// The slide attributes are those of every `.slide` comment of the HTML,
/// concatenated in document order: each comment's pairs extend, and never
/// replace, those collected before it.
pub proof fn lemma_slide_attributes_gather_every_slide_comment(h: Seq<char>)
    ensures
        apply_spec(h) matches Some((_, s)) ==> s == slide_attrs_from(h, 0),
{
    let tags = tags_spec(h);
    let paired = pairs_spec(h, tags);
    lemma_comments_collect_slide_attrs(h, tags, paired, 0, Seq::empty(), Seq::empty());
    assert(Seq::<(Seq<char>, Seq<char>)>::empty() + slide_attrs_from(h, 0) =~= slide_attrs_from(
        h,
        0,
    ));
}

/// Attributes collected before a point of the scan are never dropped: the
/// slide attributes from any point on are those collected so far followed by
/// what the rest of the HTML adds.
pub proof fn lemma_collected_slide_attributes_are_kept(
    h: Seq<char>,
    tags: Seq<Tag>,
    paired: Seq<Option<usize>>,
    i: int,
    slide: Seq<(Seq<char>, Seq<char>)>,
    edits: Seq<(usize, usize, Seq<char>)>,
)
    ensures
        comments_from(h, tags, paired, i, slide, edits) matches Some((s, _)) ==> s.len() >= slide.len()
            && s.take(slide.len() as int) == slide && s.skip(slide.len() as int) == slide_attrs_from(
            h,
            i,
        ),
{
    lemma_comments_collect_slide_attrs(h, tags, paired, i, slide, edits);
    if comments_from(h, tags, paired, i, slide, edits) is Some {
        let (s, _) = comments_from(h, tags, paired, i, slide, edits)->0;
        assert(s.take(slide.len() as int) =~= slide);
        assert(s.skip(slide.len() as int) =~= slide_attrs_from(h, i));
    }
}

/// Whether the attribute comments of `html` can be applied: every comment
/// closes after it opens and no two edits overlap.
pub open spec fn applicable(html: Seq<char>) -> bool {
    apply_spec(html) is Some
}

/// Applies the attribute comments in one slide's HTML.
///
/// Returns the HTML with the comments removed and `.element` attributes
/// applied, plus the `.slide` attributes for the enclosing `<section>`.
pub fn apply(html: &str) -> (r: (String, Vec<(String, String)>))
    requires
        applicable(html@),
    ensures
        apply_spec(html@) == Some(
            (r.0@, r.1@.map_values(|p: (String, String)| (p.0@, p.1@))),
        ),
{
    let h = chars_of(html);
    match apply_chars(&h) {
        Some((out, slide)) => (string_of(&out), to_strings(&slide)),
        None => {
            assert(false);
            (String::new(), Vec::new())
        },
    }
}

/// Applies the attribute comments in one slide's HTML where they can be;
/// `None` where they cannot.
pub fn try_apply(html: &str) -> (r: Option<(String, Vec<(String, String)>)>)
    ensures
        match r {
            Some((out, slide)) => apply_spec(html@) == Some(
                (out@, slide@.map_values(|p: (String, String)| (p.0@, p.1@))),
            ),
            None => apply_spec(html@) is None,
        },
{
    let h = chars_of(html);
    match apply_chars(&h) {
        Some((out, slide)) => Some((string_of(&out), to_strings(&slide))),
        None => None,
    }
}

} // verus!

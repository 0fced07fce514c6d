//! Assembling the built page: splicing rendered blocks into the deck's
//! markdown, and the HTML around the slides.

use vstd::prelude::*;
use crate::origins::{
    fence, lemma_line_end, lemma_scan_body, line_end, options_spec, origins_spec_of, render_spec,
    repl_from, replacement_view, replacements_spec, scan_body, trailing_eol, is_close_fence, Replacement,
};
use crate::spans::{escape_html, push_escaped};
use crate::lines::split_on;
use crate::serve::{file_name, path_file_stem, stem_of};
use crate::text::{
    chars_of, lemma_utf8_len_concat, push_all, push_range, push_str, string_of, utf8_len, utf8_width,
    utf8_width_exec,
};

verus! {

/// An edit as its byte range and the text spliced over it.
pub type EditView = (usize, usize, Seq<char>);

pub open spec fn edit_views(edits: Seq<Replacement>) -> Seq<EditView> {
    edits.map_values(|e: Replacement| replacement_view(e))
}

/// The first index of `sorted` whose edit starts before `start`, or its
/// length.
pub open spec fn first_below(sorted: Seq<EditView>, start: usize, i: int) -> int
    decreases sorted.len() - i,
{
    if i < 0 || i >= sorted.len() || sorted[i].0 < start {
        i
    } else {
        first_below(sorted, start, i + 1)
    }
}

/// `edits` ordered by descending start, edits with equal starts kept in
/// their order: what a stable sort keyed on the reversed start gives.
pub open spec fn sort_desc(edits: Seq<EditView>) -> Seq<EditView>
    decreases edits.len(),
{
    if edits.len() == 0 {
        Seq::empty()
    } else {
        let sorted = sort_desc(edits.drop_last());
        sorted.insert(first_below(sorted, edits.last().0, 0), edits.last())
    }
}

/// The character index at which byte offset `b` falls in `s`, where it
/// falls between two characters (or at either end).
pub open spec fn char_at_byte(s: Seq<char>, b: int) -> Option<int>
    decreases s.len(),
{
    if b == 0 {
        Some(0)
    } else if b < 0 || s.len() == 0 || b < utf8_width(s[0]) {
        None
    } else {
        match char_at_byte(s.drop_first(), b - utf8_width(s[0])) {
            Some(k) => Some(k + 1),
            None => None,
        }
    }
}

/// `s` with the bytes `start..end` replaced by `text`, as
/// `String::replace_range` does it; `None` where that panics: the range is
/// reversed, or an end of it is not between two characters of `s`.
pub open spec fn splice(s: Seq<char>, start: int, end: int, text: Seq<char>) -> Option<Seq<char>> {
    if start > end {
        None
    } else {
        match (char_at_byte(s, start), char_at_byte(s, end)) {
            (Some(a), Some(b)) => Some(s.take(a) + text + s.skip(b)),
            _ => None,
        }
    }
}

/// `s` with `edits` applied in their order.
pub open spec fn splice_all(s: Seq<char>, edits: Seq<EditView>) -> Option<Seq<char>>
    decreases edits.len(),
{
    if edits.len() == 0 {
        Some(s)
    } else {
        match splice(s, edits[0].0 as int, edits[0].1 as int, edits[0].2) {
            Some(t) => splice_all(t, edits.drop_first()),
            None => None,
        }
    }
}

/// `content` with `edits` applied back to front, so that each splice
/// leaves the ranges of those not yet applied where they were.
pub open spec fn apply_spec(content: Seq<char>, edits: Seq<EditView>) -> Option<Seq<char>> {
    splice_all(content, sort_desc(edits))
}

/// The edits ordered by descending start, stably.
fn sort_edits(edits: Vec<Replacement>) -> (r: Vec<Replacement>)
    ensures
        edit_views(r@) == sort_desc(edit_views(edits@)),
{
    let ghost all = edit_views(edits@);
    let mut rest = edits;
    let mut sorted: Vec<Replacement> = Vec::new();
    let ghost mut k: int = 0;
    assert(all.take(0) =~= Seq::<EditView>::empty());
    assert(edit_views(sorted@) =~= Seq::<EditView>::empty());
    while rest.len() > 0
        invariant
            0 <= k <= all.len(),
            edit_views(rest@) == all.skip(k),
            edit_views(sorted@) == sort_desc(all.take(k)),
        decreases rest.len(),
    {
        assert(edit_views(rest@).len() == rest@.len());
        assert(k < all.len());
        assert(edit_views(rest@)[0] == replacement_view(rest@[0]));
        assert(all.skip(k)[0] == all[k]);
        let ghost old_rest = rest@;
        let e = rest.remove(0);
        assert(replacement_view(e) == all[k]);
        assert forall|j: int| 0 <= j < rest@.len() implies #[trigger] edit_views(rest@)[j]
            == all.skip(k + 1)[j] by {
            assert(rest@[j] == old_rest[j + 1]);
            assert(edit_views(old_rest)[j + 1] == replacement_view(old_rest[j + 1]));
            assert(all.skip(k)[j + 1] == all.skip(k + 1)[j]);
        }
        let ghost sv = edit_views(sorted@);
        let mut j: usize = 0;
        while j < sorted.len() && sorted[j].0.start >= e.0.start
            invariant
                j <= sorted.len(),
                sv == edit_views(sorted@),
                first_below(sv, e.0.start, j as int) == first_below(sv, e.0.start, 0),
            decreases sorted.len() - j,
        {
            assert(sv[j as int] == replacement_view(sorted@[j as int]));
            j = j + 1;
        }
        if j < sorted.len() {
            assert(sv[j as int] == replacement_view(sorted@[j as int]));
        }
        sorted.insert(j, e);
        proof {
            assert(all.take(k + 1).drop_last() =~= all.take(k));
            assert(all.take(k + 1).last() == all[k]);
            assert(edit_views(sorted@) =~= sv.insert(j as int, all[k]));
            assert(edit_views(rest@) =~= all.skip(k + 1));
            k = k + 1;
        }
    }
    assert(all.take(k) =~= all);
    sorted
}

/// The character index at which byte offset `b` falls in `s`.
fn char_index(s: &Vec<char>, b: usize) -> (r: Option<usize>)
    ensures
        match r {
            Some(k) => char_at_byte(s@, b as int) == Some(k as int) && k <= s.len(),
            None => char_at_byte(s@, b as int) is None,
        },
{
    let mut acc: usize = 0;
    let mut k: usize = 0;
    assert(s@.skip(0) =~= s@);
    while acc < b && k < s.len()
        invariant
            acc <= b,
            k <= s.len(),
            char_at_byte(s@, b as int) == match char_at_byte(s@.skip(k as int), b - acc) {
                Some(x) => Some(x + k),
                None => None::<int>,
            },
        decreases s.len() - k,
    {
        let w = utf8_width_exec(s[k]);
        assert(s@.skip(k as int)[0] == s@[k as int]);
        if w > b - acc {
            return None;
        }
        assert(s@.skip(k as int).drop_first() =~= s@.skip(k + 1));
        acc = acc + w;
        k = k + 1;
    }
    if acc == b {
        Some(k)
    } else {
        assert(s@.skip(k as int) =~= Seq::<char>::empty());
        None
    }
}

/// `content` with the byte-range `edits` applied back to front, so that
/// each splice leaves the ranges of those not yet applied valid; `None`
/// where a range is reversed or does not fall between characters of the
/// text it is applied to.
pub fn apply_edits(content: &str, edits: Vec<Replacement>) -> (r: Option<String>)
    ensures
        match r {
            Some(s) => apply_spec(content@, edit_views(edits@)) == Some(s@),
            None => apply_spec(content@, edit_views(edits@)) is None,
        },
{
    let sorted = sort_edits(edits);
    let ghost ev = edit_views(sorted@);
    let mut cur = chars_of(content);
    let mut i: usize = 0;
    assert(ev.skip(0) =~= ev);
    while i < sorted.len()
        invariant
            i <= sorted.len(),
            ev == edit_views(sorted@),
            apply_spec(content@, edit_views(edits@)) == splice_all(cur@, ev.skip(i as int)),
        decreases sorted.len() - i,
    {
        let start = sorted[i].0.start;
        let end = sorted[i].0.end;
        assert(ev.skip(i as int)[0] == ev[i as int]);
        assert(ev.skip(i as int).drop_first() =~= ev.skip(i + 1));
        if start > end {
            return None;
        }
        let a = match char_index(&cur, start) {
            Some(a) => a,
            None => {
                return None;
            },
        };
        let b = match char_index(&cur, end) {
            Some(b) => b,
            None => {
                return None;
            },
        };
        let text = chars_of(sorted[i].1.as_str());
        let mut next: Vec<char> = Vec::new();
        push_range(&mut next, &cur, 0, a);
        push_all(&mut next, &text);
        push_range(&mut next, &cur, b, cur.len());
        assert(next@ =~= cur@.take(a as int) + text@ + cur@.skip(b as int));
        cur = next;
        i = i + 1;
    }
    assert(ev.skip(sorted.len() as int) =~= Seq::<EditView>::empty());
    Some(string_of(&cur))
}

/// Where reveal.js is loaded from when the deck does not vendor it.
pub const CDN: &'static str = "https://cdn.jsdelivr.net/npm/reveal.js@5.1.0";

/// Where reveal.js's `dist` and `plugin` directories are, as the page links
/// them: copied next to the deck, or on the CDN.
pub open spec fn reveal_paths_spec(vendored: bool) -> (Seq<char>, Seq<char>) {
    if vendored {
        ("reveal/dist"@, "reveal/plugin"@)
    } else {
        (CDN@ + "/dist"@, CDN@ + "/plugin"@)
    }
}

/// Where reveal.js's `dist` and `plugin` directories are, as the page links
/// them.
pub fn reveal_paths(vendored: bool) -> (r: (String, String))
    ensures
        (r.0@, r.1@) == reveal_paths_spec(vendored),
{
    if vendored {
        let mut d: Vec<char> = Vec::new();
        push_str(&mut d, "reveal/dist");
        let mut p: Vec<char> = Vec::new();
        push_str(&mut p, "reveal/plugin");
        (string_of(&d), string_of(&p))
    } else {
        let mut d: Vec<char> = Vec::new();
        push_str(&mut d, CDN);
        push_str(&mut d, "/dist");
        let mut p: Vec<char> = Vec::new();
        push_str(&mut p, CDN);
        push_str(&mut p, "/plugin");
        (string_of(&d), string_of(&p))
    }
}

/// The first of a flag, a front matter setting and a default that is set:
/// explicit flags win over the front matter, which wins over the default.
pub open spec fn first_set(flag: Option<Seq<char>>, front: Option<Seq<char>>, default: Seq<char>) -> Seq<char> {
    match flag {
        Some(f) => f,
        None => match front {
            Some(t) => t,
            None => default,
        },
    }
}

pub open spec fn opt_str_view(o: Option<String>) -> Option<Seq<char>> {
    match o {
        Some(s) => Some(s@),
        None => None,
    }
}

/// The first of a flag, a front matter setting and a default that is set.
pub fn choose_setting(flag: Option<String>, front: Option<String>, default: String) -> (r: String)
    ensures
        r@ == first_set(opt_str_view(flag), opt_str_view(front), default@),
{
    match flag {
        Some(f) => f,
        None => match front {
            Some(t) => t,
            None => default,
        },
    }
}

/// The line that links an extra stylesheet copied into `assets/`.
pub open spec fn stylesheet_link_spec(name: Seq<char>) -> Seq<char> {
    "  <link rel=\"stylesheet\" href=\"assets/"@ + name + "\" />\n"@
}

/// The line that links an extra stylesheet copied into `assets/`.
pub fn stylesheet_link(name: &str) -> (r: String)
    ensures
        r@ == stylesheet_link_spec(name@),
{
    let mut out: Vec<char> = Vec::new();
    push_str(&mut out, "  <link rel=\"stylesheet\" href=\"assets/");
    push_str(&mut out, name);
    push_str(&mut out, "\" />\n");
    string_of(&out)
}

/// The line that loads an extra script copied into `assets/`.
pub open spec fn script_tag_spec(name: Seq<char>) -> Seq<char> {
    "  <script src=\"assets/"@ + name + "\"></script>\n"@
}

/// The line that loads an extra script copied into `assets/`.
pub fn script_tag(name: &str) -> (r: String)
    ensures
        r@ == script_tag_spec(name@),
{
    let mut out: Vec<char> = Vec::new();
    push_str(&mut out, "  <script src=\"assets/");
    push_str(&mut out, name);
    push_str(&mut out, "\"></script>\n");
    string_of(&out)
}

/// The line that loads the reloader `--watch` injects.
pub const LIVERELOAD_TAG: &'static str = "  <script src=\"aquascope/livereload.js\"></script>\n";

/// What goes into the page around the slides.
pub struct Page {
    /// The page title, as text; it is escaped into the page.
    pub title: String,
    /// Where reveal.js's `dist` directory is.
    pub reveal: String,
    /// Where reveal.js's `plugin` directory is.
    pub plugin: String,
    /// The reveal.js theme name.
    pub theme: String,
    /// Extra lines for the end of `<head>`.
    pub head: String,
    /// The slides' HTML.
    pub slides: String,
    /// The JSON object handed to `Reveal.initialize`.
    pub reveal_options: String,
    /// Extra lines for the end of `<body>`.
    pub tail: String,
}

/// The built page.
pub open spec fn page_html_spec(p: Page) -> Seq<char> {
    "<!DOCTYPE html>\n<html lang=\"en\">\n<head>\n  <meta charset=\"utf-8\" />\n  <meta name=\"viewport\" content=\"width=device-width, initial-scale=1.0\" />\n  <title>"@
        + escape_html(p.title@) + "</title>\n  <link rel=\"stylesheet\" href=\""@ + p.reveal@
        + "/reset.css\" />\n  <link rel=\"stylesheet\" href=\""@ + p.reveal@
        + "/reveal.css\" />\n  <link rel=\"stylesheet\" href=\""@ + p.reveal@ + "/theme/"@
        + p.theme@
        + ".css\" id=\"theme\" />\n  <link rel=\"stylesheet\" href=\"aquascope/aquascope-reveal.css\" />\n  <link rel=\"stylesheet\" href=\"aquascope/highlight.css\" />\n  <link rel=\"stylesheet\" href=\"aquascope/style.css\" />\n"@
        + p.head@ + "</head>\n<body>\n  <div class=\"reveal\">\n    <div class=\"slides\">\n"@
        + p.slides@ + "    </div>\n  </div>\n  <script src=\""@ + p.reveal@
        + "/reveal.js\"></script>\n  <script src=\""@ + p.plugin@
        + "/highlight/highlight.js\"></script>\n  <script src=\""@ + p.plugin@
        + "/notes/notes.js\"></script>\n  <script>window.AQUASCOPE_REVEAL_OPTIONS = "@
        + p.reveal_options@
        + ";</script>\n  <script src=\"aquascope/aquascope-reveal.js\"></script>\n"@ + p.tail@
        + "</body>\n</html>\n"@
}

/// The built page.
pub fn page_html(p: &Page) -> (r: String)
    ensures
        r@ == page_html_spec(*p),
{
    let mut out: Vec<char> = Vec::new();
    push_str(&mut out, "<!DOCTYPE html>\n<html lang=\"en\">\n<head>\n  <meta charset=\"utf-8\" />\n  <meta name=\"viewport\" content=\"width=device-width, initial-scale=1.0\" />\n  <title>");
    let t = chars_of(p.title.as_str());
    push_escaped(&mut out, &t, 0, t.len());
    assert(t@.subrange(0, t@.len() as int) =~= t@);
    push_str(&mut out, "</title>\n  <link rel=\"stylesheet\" href=\"");
    push_str(&mut out, p.reveal.as_str());
    push_str(&mut out, "/reset.css\" />\n  <link rel=\"stylesheet\" href=\"");
    push_str(&mut out, p.reveal.as_str());
    push_str(&mut out, "/reveal.css\" />\n  <link rel=\"stylesheet\" href=\"");
    push_str(&mut out, p.reveal.as_str());
    push_str(&mut out, "/theme/");
    push_str(&mut out, p.theme.as_str());
    push_str(&mut out, ".css\" id=\"theme\" />\n  <link rel=\"stylesheet\" href=\"aquascope/aquascope-reveal.css\" />\n  <link rel=\"stylesheet\" href=\"aquascope/highlight.css\" />\n  <link rel=\"stylesheet\" href=\"aquascope/style.css\" />\n");
    push_str(&mut out, p.head.as_str());
    push_str(&mut out, "</head>\n<body>\n  <div class=\"reveal\">\n    <div class=\"slides\">\n");
    push_str(&mut out, p.slides.as_str());
    push_str(&mut out, "    </div>\n  </div>\n  <script src=\"");
    push_str(&mut out, p.reveal.as_str());
    push_str(&mut out, "/reveal.js\"></script>\n  <script src=\"");
    push_str(&mut out, p.plugin.as_str());
    push_str(&mut out, "/highlight/highlight.js\"></script>\n  <script src=\"");
    push_str(&mut out, p.plugin.as_str());
    push_str(&mut out, "/notes/notes.js\"></script>\n  <script>window.AQUASCOPE_REVEAL_OPTIONS = ");
    push_str(&mut out, p.reveal_options.as_str());
    push_str(&mut out, ";</script>\n  <script src=\"aquascope/aquascope-reveal.js\"></script>\n");
    push_str(&mut out, p.tail.as_str());
    push_str(&mut out, "</body>\n</html>\n");
    string_of(&out)
}

/// Where byte offset `b` falls between characters of `s`, the characters
/// before it take exactly `b` bytes.
proof fn lemma_char_at_byte_prefix(s: Seq<char>, b: int)
    ensures
        char_at_byte(s, b) matches Some(k) ==> 0 <= k <= s.len() && utf8_len(s.take(k)) == b,
    decreases s.len(),
{
    if b == 0 {
        assert(s.take(0) =~= Seq::<char>::empty());
    } else if b < 0 || s.len() == 0 || b < utf8_width(s[0]) {
    } else {
        lemma_char_at_byte_prefix(s.drop_first(), b - utf8_width(s[0]));
        match char_at_byte(s.drop_first(), b - utf8_width(s[0])) {
            Some(k) => {
                assert(s.take(k + 1) =~= seq![s[0]] + s.drop_first().take(k));
                lemma_utf8_len_concat(seq![s[0]], s.drop_first().take(k));
                assert(seq![s[0]].drop_last() =~= Seq::<char>::empty());
                assert(utf8_len(Seq::<char>::empty()) == 0);
                assert(utf8_len(seq![s[0]]) == utf8_width(s[0]));
            },
            None => {},
        }
    }
}

/// Offsets within a prefix fall where they fell before anything was
/// appended.
proof fn lemma_char_at_byte_append(x: Seq<char>, y: Seq<char>, b: int)
    requires
        b <= utf8_len(x),
    ensures
        char_at_byte(x + y, b) == char_at_byte(x, b),
    decreases x.len(),
{
    if b == 0 || b < 0 {
    } else if x.len() == 0 {
    } else {
        assert((x + y)[0] == x[0]);
        assert((x + y).drop_first() =~= x.drop_first() + y);
        assert(x =~= seq![x[0]] + x.drop_first());
        lemma_utf8_len_concat(seq![x[0]], x.drop_first());
        assert(seq![x[0]].drop_last() =~= Seq::<char>::empty());
        assert(utf8_len(Seq::<char>::empty()) == 0);
        assert(utf8_len(seq![x[0]]) == utf8_width(x[0]));
        if b >= utf8_width(x[0]) {
            lemma_char_at_byte_append(x.drop_first(), y, b - utf8_width(x[0]));
        }
    }
}

/// Whether every edit's range is in order and falls between characters
/// of `s`.
pub open spec fn ranges_fall_between_chars(s: Seq<char>, edits: Seq<EditView>) -> bool {
    forall|i: int|
        0 <= i < edits.len() ==> #[trigger] edits[i].0 <= edits[i].1 && char_at_byte(
            s,
            edits[i].0 as int,
        ) is Some && char_at_byte(s, edits[i].1 as int) is Some
}

/// Whether the edits come in document order without overlapping: each
/// starts after the one before it starts, and not before it ends.
pub open spec fn in_document_order(edits: Seq<EditView>) -> bool {
    forall|i: int, j: int|
        0 <= i < j < edits.len() ==> #[trigger] edits[i].1 <= #[trigger] edits[j].0 && edits[i].0
            < edits[j].0
}

proof fn lemma_sort_desc_reverses(edits: Seq<EditView>)
    requires
        in_document_order(edits),
    ensures
        sort_desc(edits) == edits.reverse(),
    decreases edits.len(),
{
    if edits.len() > 0 {
        let init = edits.drop_last();
        assert(in_document_order(init)) by {
            assert forall|i: int, j: int| 0 <= i < j < init.len() implies #[trigger] init[i].1
                <= #[trigger] init[j].0 && init[i].0 < init[j].0 by {
                assert(init[i] == edits[i] && init[j] == edits[j]);
            }
        }
        lemma_sort_desc_reverses(init);
        let sorted = init.reverse();
        if sorted.len() > 0 {
            assert(sorted[0] == edits[edits.len() - 2]);
            assert(edits[edits.len() - 2].1 <= edits[edits.len() - 1].0);
            assert(edits[edits.len() - 2].0 < edits[edits.len() - 1].0);
        }
        assert(first_below(sorted, edits.last().0, 0) == 0);
        assert(sorted.insert(0, edits.last()) =~= edits.reverse());
    }
}

proof fn lemma_reverse_splices_apply(s: Seq<char>, edits: Seq<EditView>)
    requires
        ranges_fall_between_chars(s, edits),
        in_document_order(edits),
    ensures
        splice_all(s, edits.reverse()) is Some,
    decreases edits.len(),
{
    if edits.len() > 0 {
        let e = edits.last();
        let init = edits.drop_last();
        assert(ranges_fall_between_chars(s, edits) ==> edits[edits.len() - 1].0
            <= edits[edits.len() - 1].1);
        let a = char_at_byte(s, e.0 as int)->0;
        let b = char_at_byte(s, e.1 as int)->0;
        let t = s.take(a) + e.2 + s.skip(b);
        assert(splice(s, e.0 as int, e.1 as int, e.2) == Some(t));
        lemma_char_at_byte_prefix(s, e.0 as int);
        assert(s =~= s.take(a) + s.skip(a));
        assert(t =~= s.take(a) + (e.2 + s.skip(b)));
        assert(ranges_fall_between_chars(t, init)) by {
            assert forall|i: int| 0 <= i < init.len() implies #[trigger] init[i].0 <= init[i].1
                && char_at_byte(t, init[i].0 as int) is Some && char_at_byte(
                t,
                init[i].1 as int,
            ) is Some by {
                assert(init[i] == edits[i]);
                assert(edits[i].1 <= edits[edits.len() - 1].0);
                lemma_char_at_byte_append(s.take(a), s.skip(a), init[i].0 as int);
                lemma_char_at_byte_append(s.take(a), s.skip(a), init[i].1 as int);
                lemma_char_at_byte_append(s.take(a), e.2 + s.skip(b), init[i].0 as int);
                lemma_char_at_byte_append(s.take(a), e.2 + s.skip(b), init[i].1 as int);
            }
        }
        assert(in_document_order(init)) by {
            assert forall|i: int, j: int| 0 <= i < j < init.len() implies #[trigger] init[i].1
                <= #[trigger] init[j].0 && init[i].0 < init[j].0 by {
                assert(init[i] == edits[i] && init[j] == edits[j]);
            }
        }
        lemma_reverse_splices_apply(t, init);
        assert(edits.reverse()[0] == e);
        assert(edits.reverse().drop_first() =~= init.reverse());
    }
}

/// Edits in document order that do not overlap, each range between
/// characters of the content, all apply: splicing back to front never
/// moves a range that is still to be applied.
pub proof fn lemma_ordered_edits_apply(content: Seq<char>, edits: Seq<EditView>)
    requires
        ranges_fall_between_chars(content, edits),
        in_document_order(edits),
    ensures
        apply_spec(content, edits) is Some,
{
    lemma_sort_desc_reverses(edits);
    lemma_reverse_splices_apply(content, edits);
}

/// The title a deck gets when neither a flag nor its front matter sets
/// one: the stem of the input file's name, or `Slides`.
pub open spec fn default_title_spec(input: Seq<char>) -> Seq<char> {
    match file_name(split_on(input, '/')) {
        Some(n) => stem_of(n),
        None => "Slides"@,
    }
}

/// The title a deck gets when neither a flag nor its front matter sets one.
pub fn default_title(input: &str) -> (r: String)
    ensures
        r@ == default_title_spec(input@),
{
    match path_file_stem(input) {
        Some(s) => s,
        None => {
            let mut out: Vec<char> = Vec::new();
            push_str(&mut out, "Slides");
            string_of(&out)
        },
    }
}

/// Text escaped for the page: `&`, `<` and `>` become entities.
pub fn escape(s: &str) -> (r: String)
    ensures
        r@ == escape_html(s@),
{
    let c = chars_of(s);
    let mut out: Vec<char> = Vec::new();
    push_escaped(&mut out, &c, 0, c.len());
    assert(c@.subrange(0, c@.len() as int) =~= c@);
    string_of(&out)
}

fn push_decimal_u128(out: &mut Vec<char>, n: u128)
    ensures
        final(out)@ == old(out)@ + crate::text::decimal(n as nat),
    decreases n,
{
    if n < 10 {
        crate::text::push_decimal(out, n as u64);
    } else {
        push_decimal_u128(out, n / 10);
        let d = (n % 10) as u64;
        let ghost before = out@;
        crate::text::push_decimal(out, d);
        assert(crate::text::decimal(d as nat) == seq![crate::text::digit_char(d as nat)]);
        assert(out@ =~= before.push(crate::text::digit_char((n % 10) as nat)));
    }
}

/// The build stamp `--watch` writes on each rebuild, from the time since
/// the Unix epoch in nanoseconds: its decimal digits, or nothing where the
/// clock reads before the epoch. Nanoseconds are well past what the poll
/// interval can tell apart, so successive builds never share a stamp.
pub fn stamp(elapsed_nanos: Option<u128>) -> (r: String)
    ensures
        r@ == match elapsed_nanos {
            Some(n) => crate::text::decimal(n as nat),
            None => Seq::empty(),
        },
{
    let mut out: Vec<char> = Vec::new();
    match elapsed_nanos {
        Some(n) => push_decimal_u128(&mut out, n),
        None => {},
    }
    string_of(&out)
}

/// The byte offset at which the first `k` characters of `s` end falls
/// between characters, at character `k`.
pub proof fn lemma_char_at_prefix_len(s: Seq<char>, k: int)
    requires
        0 <= k <= s.len(),
    ensures
        char_at_byte(s, utf8_len(s.take(k)) as int) == Some(k),
    decreases k,
{
    if k == 0 {
        assert(s.take(0) =~= Seq::<char>::empty());
    } else {
        let t = s.drop_first();
        assert(s.take(k) =~= seq![s[0]] + t.take(k - 1));
        lemma_utf8_len_concat(seq![s[0]], t.take(k - 1));
        assert(seq![s[0]].drop_last() =~= Seq::<char>::empty());
        assert(utf8_len(Seq::<char>::empty()) == 0);
        assert(utf8_len(seq![s[0]]) == utf8_width(s[0]));
        lemma_char_at_prefix_len(t, k - 1);
    }
}

/// Longer prefixes take more bytes.
proof fn lemma_prefix_len_grows(s: Seq<char>, a: int, b: int)
    requires
        0 <= a <= b <= s.len(),
    ensures
        utf8_len(s.take(a)) + (b - a) <= utf8_len(s.take(b)),
{
    assert(s.take(b) =~= s.take(a) + s.subrange(a, b));
    lemma_utf8_len_concat(s.take(a), s.subrange(a, b));
    crate::text::lemma_utf8_len_ge(s.subrange(a, b));
}

/// The `\r` and `\n` that end a line take one byte each.
proof fn lemma_trailing_eol(x: Seq<char>)
    ensures
        trailing_eol(x) <= x.len(),
        utf8_len(x) == utf8_len(x.take(x.len() - trailing_eol(x))) + trailing_eol(x),
    decreases x.len(),
{
    if x.len() > 0 && (x.last() == '\r' || x.last() == '\n') {
        lemma_trailing_eol(x.drop_last());
        assert(x.drop_last().take(x.drop_last().len() - trailing_eol(x.drop_last())) =~= x.take(
            x.len() - trailing_eol(x),
        ));
    } else {
        assert(x.take(x.len() as int) =~= x);
    }
}

/// Where scanning a fence's body finds the closing line, that line starts
/// at or after where scanning began and ends where scanning stopped, and
/// the range it reports ends at the end of that line's text.
proof fn lemma_scan_body_close(s: Seq<char>, k: int, n: int, ticks: nat, body: Seq<char>) -> (kc: int)
    requires
        0 <= k <= s.len(),
    ensures
        scan_body(s, k, n, ticks, body).3 is Some ==> k <= kc < s.len() && line_end(s, kc)
            == scan_body(s, k, n, ticks, body).0 && scan_body(s, k, n, ticks, body).3->0
            == utf8_len(s.take(line_end(s, kc))) - trailing_eol(s.subrange(kc, line_end(s, kc))),
    decreases s.len() - k,
{
    if k < s.len() {
        lemma_line_end(s, k);
        let e = line_end(s, k);
        if is_close_fence(s.subrange(k, e), ticks) {
            k
        } else {
            lemma_scan_body_close(s, e, n + 1, ticks, body + s.subrange(k, e))
        }
    } else {
        k
    }
}

/// One more block's edit keeps the edits in order and between characters.
proof fn lemma_close_edit(
    s: Seq<char>,
    i: int,
    e: int,
    next: int,
    kc: int,
    x: int,
    out: Seq<EditView>,
    html: Seq<char>,
)
    requires
        0 <= i < e <= kc < next <= s.len(),
        line_end(s, kc) == next,
        x == utf8_len(s.take(next)) - trailing_eol(s.subrange(kc, next)),
        utf8_len(s) <= usize::MAX,
        ranges_fall_between_chars(s, out),
        in_document_order(out),
        forall|j: int| 0 <= j < out.len() ==> #[trigger] out[j].0 < out[j].1 && out[j].1 <= utf8_len(
            s.take(i),
        ),
    ensures
        ranges_fall_between_chars(s, out.push((utf8_len(s.take(i)) as usize, x as usize, html))),
        in_document_order(out.push((utf8_len(s.take(i)) as usize, x as usize, html))),
        forall|j: int|
            0 <= j < out.push((utf8_len(s.take(i)) as usize, x as usize, html)).len()
                ==> #[trigger] out.push((utf8_len(s.take(i)) as usize, x as usize, html))[j].0
                < out.push((utf8_len(s.take(i)) as usize, x as usize, html))[j].1 && out.push(
                (utf8_len(s.take(i)) as usize, x as usize, html),
            )[j].1 <= utf8_len(s.take(next)),
{
    let start = utf8_len(s.take(i));
    let cl = s.subrange(kc, next);
    lemma_trailing_eol(cl);
    let t = trailing_eol(cl);
    assert(s.take(next) =~= s.take(kc) + cl);
    assert(s.take(next - t) =~= s.take(kc) + cl.take(cl.len() - t));
    lemma_utf8_len_concat(s.take(kc), cl);
    lemma_utf8_len_concat(s.take(kc), cl.take(cl.len() - t));
    assert(x == utf8_len(s.take(next - t)));
    lemma_prefix_len_grows(s, i, next - t);
    lemma_prefix_len_grows(s, next - t, next);
    lemma_prefix_len_grows(s, next, s.len() as int);
    assert(s.take(s.len() as int) =~= s);
    lemma_char_at_prefix_len(s, i);
    lemma_char_at_prefix_len(s, next - t);
    let edit = (start as usize, x as usize, html);
    let out2 = out.push(edit);
    assert(ranges_fall_between_chars(s, out2)) by {
        assert forall|j: int| 0 <= j < out2.len() implies #[trigger] out2[j].0 <= out2[j].1
            && char_at_byte(s, out2[j].0 as int) is Some && char_at_byte(
            s,
            out2[j].1 as int,
        ) is Some by {
            if j < out.len() {
                assert(out2[j] == out[j]);
            }
        }
    }
    assert(in_document_order(out2)) by {
        assert forall|a: int, b: int| 0 <= a < b < out2.len() implies #[trigger] out2[a].1
            <= #[trigger] out2[b].0 && out2[a].0 < out2[b].0 by {
            assert(out2[a] == out[a]);
            if b < out.len() {
                assert(out2[b] == out[b]);
            }
        }
    }
    assert forall|j: int| 0 <= j < out2.len() implies #[trigger] out2[j].0 < out2[j].1
        && out2[j].1 <= utf8_len(s.take(next)) by {
        if j < out.len() {
            assert(out2[j] == out[j]);
        }
    }
}

proof fn lemma_repl_from_in_order(
    s: Seq<char>,
    i: int,
    n: int,
    out: Seq<EditView>,
    progs: Seq<(usize, Seq<char>, bool)>,
)
    requires
        0 <= i <= s.len(),
        utf8_len(s) <= usize::MAX,
        ranges_fall_between_chars(s, out),
        in_document_order(out),
        forall|j: int| 0 <= j < out.len() ==> #[trigger] out[j].0 < out[j].1 && out[j].1 <= utf8_len(
            s.take(i),
        ),
    ensures
        repl_from(s, i, n, out, progs) matches Ok((reps, _)) ==> ranges_fall_between_chars(s, reps)
            && in_document_order(reps),
    decreases s.len() - i,
{
    if i < s.len() {
        lemma_line_end(s, i);
        let e = line_end(s, i);
        let line = s.subrange(i, e);
        let start = utf8_len(s.take(i));
        lemma_prefix_len_grows(s, i, e);
        match fence(line) {
            None => {
                lemma_repl_from_in_order(s, e, n + 1, out, progs);
            },
            Some((ticks, info)) => {
                let (next, n2, body, end) = scan_body(s, e, n + 1, ticks, Seq::empty());
                lemma_scan_body(s, e, n + 1, ticks, Seq::empty());
                lemma_prefix_len_grows(s, e, next);
                match origins_spec_of(info) {
                    None => {
                        lemma_repl_from_in_order(s, next, n2, out, progs);
                    },
                    Some(spec) => match end {
                        None => {},
                        Some(x) => match options_spec(spec) {
                            Err(_) => {},
                            Ok(o) => match render_spec(body, o) {
                                Err(_) => {},
                                Ok(html) => {
                                    let kc = lemma_scan_body_close(s, e, n + 1, ticks, Seq::empty());
                                    lemma_line_end(s, kc);
                                    let out2 = out.push((start as usize, x as usize, html));
                                    lemma_close_edit(s, i, e, next, kc, x, out, html);
                                    let progs2 = if !o.notation {
                                        progs.push(
                                            (
                                                n as usize,
                                                crate::markers::program_spec(
                                                    crate::markers::split_hidden_spec(
                                                        crate::origins::strip_nl(body),
                                                    ).1,
                                                ),
                                                o.should_fail,
                                            ),
                                        )
                                    } else {
                                        progs
                                    };
                                    lemma_repl_from_in_order(s, next, n2, out2, progs2);
                                },
                            },
                        },
                    },
                }
            },
        }
    }
}

/// The edits that render a deck's ```origins blocks always apply to the
/// text they were computed against: they come in document order, do not
/// overlap, and each falls between characters, so splicing them in never
/// fails.
pub proof fn lemma_origins_replacements_apply(content: Seq<char>, first_line: nat)
    requires
        utf8_len(content) <= usize::MAX,
    ensures
        replacements_spec(content, first_line) matches Ok((reps, _)) ==> apply_spec(
            content,
            reps,
        ) is Some,
{
    assert(content.take(0) =~= Seq::<char>::empty());
    lemma_repl_from_in_order(content, 0, first_line as int, Seq::empty(), Seq::empty());
    match replacements_spec(content, first_line) {
        Ok((reps, _)) => {
            lemma_ordered_edits_apply(content, reps);
        },
        Err(_) => {},
    }
}

} // verus!

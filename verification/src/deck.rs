//! Splitting a markdown document into reveal.js slides.
//!
//! A line containing only `---` starts a new slide; a line containing only
//! `--` starts a new *vertical* slide underneath the current one. Both must
//! be surrounded by blank lines, which keeps them from colliding with setext
//! headings (`Title` followed by `---`) and with `--` appearing in prose.
//! Separators inside fenced code blocks are ignored.

use vstd::prelude::*;
use crate::attributes::{applicable, apply, apply_spec, render_spec, try_apply};
use crate::lines::{join, join_exec, lines, lines_of, views};
use crate::text::{
    blank_range, chars_of, is_blank, lemma_trim_empty, push_all, push_str, range_eq_str, skip_ws,
    string_of, trim, trim_range, trim_start,
};

verus! {

/// A deck is a list of horizontal slides, each of which is a non-empty list
/// of vertical slides. A slide with no vertical children is a one-element
/// list.
pub struct Deck {
    pub slides: Vec<Vec<String>>,
}

impl View for Deck {
    type V = Seq<Seq<Seq<char>>>;

    open spec fn view(&self) -> Seq<Seq<Seq<char>>> {
        self.slides@.map_values(|g: Vec<String>| g@.map_values(|s: String| s@))
    }
}

/// What separates slides.
#[derive(Clone, Copy, PartialEq, Eq, Debug, Structural)]
pub enum Sep {
    /// Not a separator.
    Plain,
    Horizontal,
    Vertical,
}

/// The number of leading `c`s of `t`.
pub open spec fn count_lead(t: Seq<char>, c: char) -> nat
    decreases t.len(),
{
    if t.len() > 0 && t[0] == c {
        1 + count_lead(t.drop_first(), c)
    } else {
        0
    }
}

/// The open code fence after `line`, given the one open before it: a fence
/// of three or more backticks or tildes opens, and a closing fence matches
/// the opening character, is at least as long, and carries no info string.
pub open spec fn fence_update(open: Option<(char, nat)>, line: Seq<char>) -> Option<(char, nat)> {
    let t = trim_start(line);
    if t.len() == 0 || !(t[0] == '`' || t[0] == '~') {
        open
    } else {
        let ch = t[0];
        let len = count_lead(t, ch);
        if len < 3 {
            open
        } else {
            match open {
                Some((oc, ol)) => if oc == ch && len >= ol && is_blank(t.skip(len as int)) {
                    None
                } else {
                    open
                },
                None => Some((ch, len)),
            }
        }
    }
}

/// Which separator a line is, if it is one.
pub open spec fn separator(line: Seq<char>) -> Sep {
    let t = trim(line);
    if t == seq!['-', '-', '-'] {
        Sep::Horizontal
    } else if t == seq!['-', '-'] {
        Sep::Vertical
    } else {
        Sep::Plain
    }
}

/// Whether the line before line `i` is blank, or there is none.
pub open spec fn blank_before(ls: Seq<Seq<char>>, i: int) -> bool {
    i == 0 || i > ls.len() || is_blank(ls[i - 1])
}

/// Whether the line after line `i` is blank, or there is none.
pub open spec fn blank_after(ls: Seq<Seq<char>>, i: int) -> bool {
    i + 1 >= ls.len() || is_blank(ls[i + 1])
}

/// The slides of the lines from the `i`th on: `slides` finished, `group`
/// the vertical slides of the stack being built, `cur` the lines of the
/// current slide.
pub open spec fn parse_from(
    ls: Seq<Seq<char>>,
    i: int,
    fence: Option<(char, nat)>,
    slides: Seq<Seq<Seq<char>>>,
    group: Seq<Seq<char>>,
    cur: Seq<Seq<char>>,
) -> Seq<Seq<Seq<char>>>
    decreases ls.len() - i,
{
    if i < 0 || i >= ls.len() {
        slides.push(group.push(join(cur, seq!['\n'])))
    } else {
        let f = fence_update(fence, ls[i]);
        let sep = if f is Some {
            Sep::Plain
        } else {
            separator(ls[i])
        };
        let isolated = sep != Sep::Plain && blank_before(ls, i) && blank_after(ls, i);
        if !isolated {
            parse_from(ls, i + 1, f, slides, group, cur.push(ls[i]))
        } else {
            let g = group.push(join(cur, seq!['\n']));
            if sep == Sep::Horizontal {
                parse_from(ls, i + 1, f, slides.push(g), Seq::empty(), Seq::empty())
            } else {
                parse_from(ls, i + 1, f, slides, g, Seq::empty())
            }
        }
    }
}

/// A stack's slides that are not entirely whitespace.
pub open spec fn nonblank(group: Seq<Seq<char>>) -> Seq<Seq<char>>
    decreases group.len(),
{
    if group.len() == 0 {
        Seq::empty()
    } else {
        let r = nonblank(group.drop_last());
        if is_blank(group.last()) {
            r
        } else {
            r.push(group.last())
        }
    }
}

/// Every stack with its blank slides dropped, and stacks left empty
/// dropped: what leading or trailing separators produce.
pub open spec fn drop_blank(slides: Seq<Seq<Seq<char>>>) -> Seq<Seq<Seq<char>>>
    decreases slides.len(),
{
    if slides.len() == 0 {
        Seq::empty()
    } else {
        let r = drop_blank(slides.drop_last());
        let g = nonblank(slides.last());
        if g.len() == 0 {
            r
        } else {
            r.push(g)
        }
    }
}

proof fn lemma_nonblank(group: Seq<Seq<char>>)
    ensures
        forall|j: int| 0 <= j < nonblank(group).len() ==> !is_blank(#[trigger] nonblank(group)[j]),
    decreases group.len(),
{
    if group.len() > 0 {
        lemma_nonblank(group.drop_last());
        let r = nonblank(group.drop_last());
        if !is_blank(group.last()) {
            assert forall|j: int| 0 <= j < r.push(group.last()).len() implies !is_blank(
                #[trigger] r.push(group.last())[j],
            ) by {
                if j < r.len() {
                    assert(r.push(group.last())[j] == r[j]);
                }
            }
        }
    }
}

proof fn lemma_drop_blank(slides: Seq<Seq<Seq<char>>>)
    ensures
        forall|i: int|
            0 <= i < drop_blank(slides).len() ==> #[trigger] drop_blank(slides)[i].len() > 0
                && forall|j: int|
                0 <= j < drop_blank(slides)[i].len() ==> !is_blank(drop_blank(slides)[i][j]),
    decreases slides.len(),
{
    if slides.len() > 0 {
        lemma_drop_blank(slides.drop_last());
        lemma_nonblank(slides.last());
        let r = drop_blank(slides.drop_last());
        let g = nonblank(slides.last());
        if g.len() > 0 {
            assert forall|i: int| 0 <= i < r.push(g).len() implies #[trigger] r.push(g)[i].len()
                > 0 && forall|j: int| 0 <= j < r.push(g)[i].len() ==> !is_blank(r.push(g)[i][j]) by {
                if i < r.len() {
                    assert(r.push(g)[i] == r[i]);
                } else {
                    assert(r.push(g)[i] == g);
                    assert forall|j: int| 0 <= j < g.len() implies !is_blank(g[j]) by {}
                }
            }
        }
    }
}

/// A deck is a list of stacks, each a non-empty list of slides, and no
/// slide is blank: separators at the start or end of the deck, or next to
/// each other, leave nothing behind.
pub proof fn lemma_no_blank_slides(content: Seq<char>)
    ensures
        forall|i: int|
            0 <= i < parse_spec(content).len() ==> #[trigger] parse_spec(content)[i].len() > 0
                && forall|j: int|
                0 <= j < parse_spec(content)[i].len() ==> !is_blank(parse_spec(content)[i][j]),
{
    lemma_drop_blank(
        parse_from(lines(content), 0, None, Seq::empty(), Seq::empty(), Seq::empty()),
    );
}

/// The slides of `content`.
pub open spec fn parse_spec(content: Seq<char>) -> Seq<Seq<Seq<char>>> {
    drop_blank(
        parse_from(lines(content), 0, None, Seq::empty(), Seq::empty(), Seq::empty()),
    )
}

/// Tracks whether scanning is inside a fenced code block, so that
/// separators in code are treated as ordinary text.
struct FenceState {
    open: Option<(char, usize)>,
}

impl FenceState {
    spec fn state(&self) -> Option<(char, nat)> {
        match self.open {
            Some((c, l)) => Some((c, l as nat)),
            None => None,
        }
    }

    fn new() -> (r: FenceState)
        ensures
            r.state() is None,
    {
        FenceState { open: None }
    }

    fn in_code(&self) -> (r: bool)
        ensures
            r == self.state() is Some,
    {
        self.open.is_some()
    }

    fn update(&mut self, line: &Vec<char>)
        ensures
            final(self).state() == fence_update(old(self).state(), line@),
    {
        let n = line.len();
        let k = skip_ws(line, 0, n);
        assert(line@.subrange(0, n as int) =~= line@);
        let ghost t = trim_start(line@);
        assert(t =~= line@.subrange(k as int, n as int));
        if k == n || !(line[k] == '`' || line[k] == '~') {
            return;
        }
        let ch = line[k];
        let mut j = k;
        while j < n && line[j] == ch
            invariant
                k <= j <= n == line.len(),
                count_lead(line@.subrange(k as int, n as int), ch) == (j - k) + count_lead(
                    line@.subrange(j as int, n as int),
                    ch,
                ),
            decreases n - j,
        {
            assert(line@.subrange(j as int, n as int).drop_first() =~= line@.subrange(
                j + 1,
                n as int,
            ));
            j = j + 1;
        }
        let len = j - k;
        assert(count_lead(t, ch) == len);
        if len < 3 {
            return;
        }
        assert(t.skip(len as int) =~= line@.subrange(j as int, n as int));
        match self.open {
            Some((oc, ol)) => {
                if oc == ch && len >= ol && blank_range(line, j, n) {
                    self.open = None;
                }
            },
            None => {
                self.open = Some((ch, len));
            },
        }
    }
}

fn separator_exec(line: &Vec<char>) -> (r: Sep)
    ensures
        r == separator(line@),
{
    let (a, b) = trim_range(line, 0, line.len());
    assert(line@.subrange(0, line@.len() as int) =~= line@);
    let ghost t = line@.subrange(a as int, b as int);
    if b - a == 3 && line[a] == '-' && line[a + 1] == '-' && line[a + 2] == '-' {
        assert(t =~= seq!['-', '-', '-']);
        Sep::Horizontal
    } else if b - a == 2 && line[a] == '-' && line[a + 1] == '-' {
        assert(t =~= seq!['-', '-']);
        Sep::Vertical
    } else {
        proof {
            if t.len() == 3 {
                assert(t[0] == line@[a as int] && t[1] == line@[a + 1] && t[2] == line@[a + 2]);
            }
            if t.len() == 2 {
                assert(t[0] == line@[a as int] && t[1] == line@[a + 1]);
            }
        }
        Sep::Plain
    }
}

fn nonblank_exec(group: &Vec<Vec<char>>) -> (r: Vec<Vec<char>>)
    ensures
        views(r@) == nonblank(views(group@)),
{
    let mut r: Vec<Vec<char>> = Vec::new();
    let mut k: usize = 0;
    while k < group.len()
        invariant
            k <= group.len(),
            views(r@) == nonblank(views(group@).take(k as int)),
        decreases group.len() - k,
    {
        let s = &group[k];
        assert(views(group@)[k as int] == s@);
        assert(views(group@).take(k + 1).drop_last() =~= views(group@).take(k as int));
        assert(views(group@).take(k + 1).last() == s@);
        if !blank_range(s, 0, s.len()) {
            let mut c: Vec<char> = Vec::new();
            push_all(&mut c, s);
            let ghost before = views(r@);
            r.push(c);
            assert(views(r@) =~= before.push(s@));
        }
        assert(s@.subrange(0, s@.len() as int) =~= s@);
        k = k + 1;
    }
    assert(views(group@).take(group.len() as int) =~= views(group@));
    r
}

pub open spec fn group_views(v: Seq<Vec<Vec<char>>>) -> Seq<Seq<Seq<char>>> {
    v.map_values(|g: Vec<Vec<char>>| views(g@))
}

impl Deck {
    /// Splits `content` into slides. `content` is markdown that has already
    /// had its Aquascope blocks replaced by HTML.
    pub fn parse(content: &str) -> (d: Deck)
        ensures
            d@ == parse_spec(content@),
    {
        let c = chars_of(content);
        let ls = lines_of(&c);
        let ghost lv = views(ls@);
        let n = ls.len();
        let mut fences = FenceState::new();
        let mut slides: Vec<Vec<Vec<char>>> = Vec::new();
        let mut group: Vec<Vec<char>> = Vec::new();
        let mut cur: Vec<Vec<char>> = Vec::new();
        let mut i: usize = 0;
        assert(group_views(slides@) =~= Seq::<Seq<Seq<char>>>::empty());
        assert(views(group@) =~= Seq::<Seq<char>>::empty());
        assert(views(cur@) =~= Seq::<Seq<char>>::empty());
        while i < n
            invariant
                n == ls.len(),
                i <= n,
                lv == views(ls@),
                lv == lines(c@),
                parse_from(lv, i as int, fences.state(), group_views(slides@), views(group@), views(cur@))
                    == parse_from(lv, 0, None, Seq::empty(), Seq::empty(), Seq::empty()),
            decreases n - i,
        {
            let line = &ls[i];
            assert(lv[i as int] == line@);
            fences.update(line);
            let sep = if fences.in_code() {
                Sep::Plain
            } else {
                separator_exec(line)
            };
            let before_blank = i == 0 || blank_range(&ls[i - 1], 0, ls[i - 1].len());
            let after_blank = i + 1 >= n || blank_range(&ls[i + 1], 0, ls[i + 1].len());
            proof {
                if i > 0 {
                    assert(lv[i - 1] == ls@[i - 1]@);
                    assert(ls@[i - 1]@.subrange(0, ls@[i - 1]@.len() as int) =~= ls@[i - 1]@);
                }
                if i + 1 < n {
                    assert(lv[i + 1] == ls@[i + 1]@);
                    assert(ls@[i + 1]@.subrange(0, ls@[i + 1]@.len() as int) =~= ls@[i + 1]@);
                }
            }
            let isolated = sep != Sep::Plain && before_blank && after_blank;
            if !isolated {
                let mut l: Vec<char> = Vec::new();
                push_all(&mut l, line);
                let ghost bc = views(cur@);
                cur.push(l);
                assert(views(cur@) =~= bc.push(lv[i as int]));
            } else {
                let joined = join_exec(&cur, '\n');
                let ghost bg = views(group@);
                group.push(joined);
                assert(views(group@) =~= bg.push(join(views(cur@), seq!['\n'])));
                cur = Vec::new();
                assert(views(cur@) =~= Seq::<Seq<char>>::empty());
                if sep == Sep::Horizontal {
                    let g = group;
                    let ghost bs = group_views(slides@);
                    let ghost gv = views(g@);
                    slides.push(g);
                    assert(group_views(slides@) =~= bs.push(gv));
                    group = Vec::new();
                    assert(views(group@) =~= Seq::<Seq<char>>::empty());
                }
            }
            i = i + 1;
        }
        let joined = join_exec(&cur, '\n');
        let ghost bg = views(group@);
        group.push(joined);
        assert(views(group@) =~= bg.push(join(views(cur@), seq!['\n'])));
        let ghost bs = group_views(slides@);
        let ghost gv = views(group@);
        slides.push(group);
        assert(group_views(slides@) =~= bs.push(gv));
        // Drop slides that are entirely whitespace.
        let ghost all = group_views(slides@);
        let mut out: Vec<Vec<String>> = Vec::new();
        let mut k: usize = 0;
        assert(out@.map_values(|g: Vec<String>| g@.map_values(|s: String| s@)) =~= drop_blank(
            all.take(0),
        ));
        while k < slides.len()
            invariant
                k <= slides.len(),
                all == group_views(slides@),
                out@.map_values(|g: Vec<String>| g@.map_values(|s: String| s@)) == drop_blank(
                    all.take(k as int),
                ),
            decreases slides.len() - k,
        {
            let g = nonblank_exec(&slides[k]);
            assert(all[k as int] == views(slides@[k as int]@));
            assert(all.take(k + 1).drop_last() =~= all.take(k as int));
            if g.len() > 0 {
                let mut strs: Vec<String> = Vec::new();
                let mut j: usize = 0;
                while j < g.len()
                    invariant
                        j <= g.len(),
                        strs@.map_values(|s: String| s@) == views(g@).take(j as int),
                    decreases g.len() - j,
                {
                    let s = string_of(&g[j]);
                    let ghost b = strs@.map_values(|s: String| s@);
                    strs.push(s);
                    assert(strs@.map_values(|s: String| s@) =~= b.push(g@[j as int]@));
                    j = j + 1;
                    assert(views(g@).take(j as int) =~= views(g@).take(j - 1).push(g@[j - 1]@));
                }
                assert(views(g@).take(g.len() as int) =~= views(g@));
                let ghost bo = out@.map_values(|g: Vec<String>| g@.map_values(|s: String| s@));
                let ghost sv = strs@.map_values(|s: String| s@);
                out.push(strs);
                assert(out@.map_values(|g: Vec<String>| g@.map_values(|s: String| s@)) =~= bo.push(
                    sv,
                ));
            }
            k = k + 1;
        }
        assert(all.take(slides.len() as int) =~= all);
        Deck { slides: out }
    }
}

} // verus!

verus! {

// ---------------------------------------------------------------------------
// Rendering

/// `pulldown_cmark::Options::ENABLE_TABLES`.
pub const ENABLE_TABLES: u32 = 2;

/// `pulldown_cmark::Options::ENABLE_FOOTNOTES`.
pub const ENABLE_FOOTNOTES: u32 = 4;

/// `pulldown_cmark::Options::ENABLE_STRIKETHROUGH`.
pub const ENABLE_STRIKETHROUGH: u32 = 8;

/// `pulldown_cmark::Options::ENABLE_TASKLISTS`.
pub const ENABLE_TASKLISTS: u32 = 16;

/// The markdown extensions a slide is rendered with.
pub const MARKDOWN_OPTIONS: u32 = ENABLE_TABLES | ENABLE_FOOTNOTES | ENABLE_STRIKETHROUGH | ENABLE_TASKLISTS;

/// What `pulldown_cmark` renders `markdown` as, with the extensions whose
/// bits are set in `options`.
pub uninterp spec fn markdown_html(markdown: Seq<char>, options: u32) -> Seq<char>;

/// Runs `pulldown_cmark::Parser::new_ext` over `markdown` with the options
/// `Options::from_bits_truncate(options)`, and writes the events out with
/// `pulldown_cmark::html::push_html` into a new `String`. The contract only
/// names the result: what HTML pulldown-cmark produces is not restated here.
#[verifier::external_body]
fn render_markdown(markdown: &str, options: u32) -> (r: String)
    ensures
        r@ == markdown_html(markdown@, options),
{
    let mut out = String::new();
    let opts = pulldown_cmark::Options::from_bits_truncate(options);
    pulldown_cmark::html::push_html(&mut out, pulldown_cmark::Parser::new_ext(markdown, opts));
    out
}

/// A `<section>` holding one slide's HTML, its attribute comments applied
/// and its `.slide` attributes on the section. Meaningful where the
/// comments can be applied.
pub open spec fn section_of_html_spec(html: Seq<char>) -> Seq<char> {
    let (out, attrs) = apply_spec(html)->0;
    "<section"@ + render_spec(attrs) + ">\n"@ + out + "</section>\n"@
}

/// The `<section>` for one slide's markdown.
pub open spec fn section_spec(markdown: Seq<char>) -> Seq<char> {
    section_of_html_spec(markdown_html(markdown, MARKDOWN_OPTIONS))
}

/// A horizontal stack: one slide alone is its own section; several go in a
/// section of their own, one section each.
pub open spec fn group_html(group: Seq<Seq<char>>) -> Seq<char> {
    if group.len() == 1 {
        section_spec(group[0])
    } else {
        "<section>\n"@ + sections(group) + "</section>\n"@
    }
}

pub open spec fn sections(group: Seq<Seq<char>>) -> Seq<char>
    decreases group.len(),
{
    if group.len() == 0 {
        Seq::empty()
    } else {
        sections(group.drop_last()) + section_spec(group.last())
    }
}

/// The contents of reveal's `<div class="slides">` for `deck`.
pub open spec fn deck_html(deck: Seq<Seq<Seq<char>>>) -> Seq<char>
    decreases deck.len(),
{
    if deck.len() == 0 {
        Seq::empty()
    } else {
        deck_html(deck.drop_last()) + group_html(deck.last())
    }
}

/// The slides' HTML follows the deck's order: the HTML of two runs of
/// stacks one after the other is the first run's HTML followed by the
/// second's, one stack alone is that stack's HTML, and no stacks is no HTML.
/// Within a stack, likewise, each slide's section follows the one before.
pub proof fn lemma_slides_render_in_order(a: Seq<Seq<Seq<char>>>, b: Seq<Seq<Seq<char>>>)
    ensures
        deck_html(a + b) == deck_html(a) + deck_html(b),
        deck_html(Seq::empty()) == Seq::<char>::empty(),
        forall|g: Seq<Seq<char>>| #[trigger] deck_html(seq![g]) == group_html(g),
    decreases b.len(),
{
    assert forall|g: Seq<Seq<char>>| #[trigger] deck_html(seq![g]) == group_html(g) by {
        assert(seq![g].drop_last() =~= Seq::<Seq<Seq<char>>>::empty());
        assert(seq![g].last() == g);
        assert(deck_html(Seq::<Seq<Seq<char>>>::empty()) == Seq::<char>::empty());
        assert(deck_html(seq![g]) == deck_html(seq![g].drop_last()) + group_html(seq![g].last()));
        assert(Seq::<char>::empty() + group_html(g) =~= group_html(g));
    }
    if b.len() == 0 {
        assert(a + b =~= a);
        assert(deck_html(a) + Seq::<char>::empty() =~= deck_html(a));
    } else {
        lemma_slides_render_in_order(a, b.drop_last());
        assert((a + b).drop_last() =~= a + b.drop_last());
        assert((a + b).last() == b.last());
        assert(deck_html(a) + deck_html(b) =~= deck_html(a) + deck_html(b.drop_last()) + group_html(
            b.last(),
        ));
    }
}

/// Within a stack the sections follow the slides' order, in the same way.
pub proof fn lemma_sections_render_in_order(a: Seq<Seq<char>>, b: Seq<Seq<char>>)
    ensures
        sections(a + b) == sections(a) + sections(b),
        forall|x: Seq<char>| #[trigger] sections(seq![x]) == section_spec(x),
    decreases b.len(),
{
    assert forall|x: Seq<char>| #[trigger] sections(seq![x]) == section_spec(x) by {
        assert(seq![x].drop_last() =~= Seq::<Seq<char>>::empty());
        assert(seq![x].last() == x);
        assert(sections(Seq::<Seq<char>>::empty()) == Seq::<char>::empty());
        assert(sections(seq![x]) == sections(seq![x].drop_last()) + section_spec(seq![x].last()));
        assert(Seq::<char>::empty() + section_spec(x) =~= section_spec(x));
    }
    if b.len() == 0 {
        assert(a + b =~= a);
        assert(sections(a) + Seq::<char>::empty() =~= sections(a));
    } else {
        lemma_sections_render_in_order(a, b.drop_last());
        assert((a + b).drop_last() =~= a + b.drop_last());
        assert((a + b).last() == b.last());
        assert(sections(a) + sections(b) =~= sections(a) + sections(b.drop_last()) + section_spec(
            b.last(),
        ));
    }
}

/// Whether every slide's rendered HTML has attribute comments that can be
/// applied.
pub open spec fn renderable(deck: Seq<Seq<Seq<char>>>) -> bool {
    forall|i: int, j: int|
        0 <= i < deck.len() && 0 <= j < deck[i].len() ==> applicable(
            #[trigger] markdown_html(deck[i][j], MARKDOWN_OPTIONS),
        )
}

/// Wraps one slide's rendered HTML in its `<section>`, applying its
/// attribute comments.
pub fn section_of_html(html: &str) -> (r: String)
    requires
        applicable(html@),
    ensures
        r@ == section_of_html_spec(html@),
{
    let mut out: Vec<char> = Vec::new();
    push_str(&mut out, "<section");
    let (body, attrs) = apply(html);
    let rendered = crate::attributes::render(&attrs);
    push_str(&mut out, rendered.as_str());
    push_str(&mut out, ">\n");
    push_str(&mut out, body.as_str());
    push_str(&mut out, "</section>\n");
    string_of(&out)
}

fn section(markdown: &str) -> (r: String)
    requires
        applicable(markdown_html(markdown@, MARKDOWN_OPTIONS)),
    ensures
        r@ == section_spec(markdown@),
{
    let html = render_markdown(markdown, MARKDOWN_OPTIONS);
    section_of_html(html.as_str())
}

/// Whether one slide's markdown renders to HTML whose attribute comments
/// can be applied.
fn slide_renders(markdown: &str) -> (r: bool)
    ensures
        r == applicable(markdown_html(markdown@, MARKDOWN_OPTIONS)),
{
    let html = render_markdown(markdown, MARKDOWN_OPTIONS);
    try_apply(html.as_str()).is_some()
}

impl Deck {
    /// Renders the deck as the contents of reveal's `<div class="slides">`.
    pub fn to_html(&self) -> (r: String)
        requires
            renderable(self@),
        ensures
            r@ == deck_html(self@),
    {
        let mut out: Vec<char> = Vec::new();
        let mut k: usize = 0;
        while k < self.slides.len()
            invariant
                k <= self.slides.len(),
                out@ == deck_html(self@.take(k as int)),
                renderable(self@),
            decreases self.slides.len() - k,
        {
            let group = &self.slides[k];
            let ghost gv = group@.map_values(|s: String| s@);
            assert(self@[k as int] == gv);
            assert forall|j: int| 0 <= j < gv.len() implies applicable(
                #[trigger] markdown_html(gv[j], MARKDOWN_OPTIONS),
            ) by {
                assert(self@[k as int][j] == gv[j]);
            }
            let ghost before = out@;
            if group.len() == 1 {
                assert(gv[0] == group@[0]@);
                let s = section(group[0].as_str());
                push_str(&mut out, s.as_str());
            } else {
                push_str(&mut out, "<section>\n");
                let ghost mid = out@;
                let mut j: usize = 0;
                while j < group.len()
                    invariant
                        j <= group.len(),
                        gv == group@.map_values(|s: String| s@),
                        out@ == mid + sections(gv.take(j as int)),
                        forall|i: int| 0 <= i < gv.len() ==> applicable(
                            #[trigger] markdown_html(gv[i], MARKDOWN_OPTIONS),
                        ),
                    decreases group.len() - j,
                {
                    assert(gv[j as int] == group@[j as int]@);
                    let s = section(group[j].as_str());
                    push_str(&mut out, s.as_str());
                    assert(gv.take(j + 1).drop_last() =~= gv.take(j as int));
                    j = j + 1;
                    assert(out@ =~= mid + sections(gv.take(j as int)));
                }
                assert(gv.take(group.len() as int) =~= gv);
                push_str(&mut out, "</section>\n");
            }
            assert(out@ =~= before + group_html(gv));
            assert(self@.take(k + 1).drop_last() =~= self@.take(k as int));
            k = k + 1;
        }
        assert(self@.take(self.slides.len() as int) =~= self@);
        string_of(&out)
    }

    /// Renders the deck where every slide's attribute comments can be
    /// applied, and gives `None` where one cannot.
    pub fn try_to_html(&self) -> (r: Option<String>)
        ensures
            match r {
                Some(h) => renderable(self@) && h@ == deck_html(self@),
                None => !renderable(self@),
            },
    {
        let mut k: usize = 0;
        while k < self.slides.len()
            invariant
                k <= self.slides.len(),
                forall|i: int, j: int|
                    0 <= i < k && 0 <= j < self@[i].len() ==> applicable(
                        #[trigger] markdown_html(self@[i][j], MARKDOWN_OPTIONS),
                    ),
            decreases self.slides.len() - k,
        {
            let group = &self.slides[k];
            let mut j: usize = 0;
            while j < group.len()
                invariant
                    k < self.slides.len(),
                    group == self.slides@[k as int],
                    j <= group.len(),
                    forall|i: int, m: int|
                        0 <= i < k && 0 <= m < self@[i].len() ==> applicable(
                            #[trigger] markdown_html(self@[i][m], MARKDOWN_OPTIONS),
                        ),
                    forall|m: int| 0 <= m < j ==> applicable(
                        #[trigger] markdown_html(self@[k as int][m], MARKDOWN_OPTIONS),
                    ),
                decreases group.len() - j,
            {
                assert(self@[k as int][j as int] == group@[j as int]@);
                if !slide_renders(group[j].as_str()) {
                    return None;
                }
                j = j + 1;
            }
            assert(self@[k as int].len() == group.len());
            k = k + 1;
        }
        Some(self.to_html())
    }
}

} // verus!

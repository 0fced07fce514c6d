//! ```origins fences: Rust carrying origin markers, baked into a
//! syntax-highlighted `<pre>` at build time.
//!
//! **No box appears without a marker.** A bare `'a` is ordinary Rust syntax;
//! every box on the slide is something the source asked for. The output is
//! a `pre` with no `code` child, which reveal's highlight plugin never
//! selects, carrying highlight.css's own class names.

use vstd::prelude::*;
use crate::markers::is_ident_char;
use crate::highlight::{highlight, highlight_spec, is_one_lifetime, one_lifetime, rust_tokens, seg};
use crate::lines::{join, join_exec, lines, split_on, split_range, views};
use crate::markers::{
    program, program_spec, split_hidden, split_hidden_spec, strip, strip_spec, BlockProblem, Class,
    ProblemView, Span,
};
use crate::spans::{
    attribute, attribute_spec, bounds, emit, emit_exec, sort_spans, sort_spans_exec,
    split_at_markers, split_spans,
};
use crate::text::{
    blank_range, chars_of, decimal, is_blank, push_all, push_decimal, push_range, push_str,
    range_eq_str, skip_ws, string_of, trim, trim_range, trim_start, utf8_len,
};

verus! {

/// What a block asks for beyond being rendered.
#[derive(Clone, Copy, Debug, PartialEq, Eq, Structural)]
pub struct Options {
    /// Give the block a Run button.
    pub run: bool,
    /// The block is expected not to compile, and says so on the slide.
    pub should_fail: bool,
    /// The block is not a program: a bare signature, or a body elided to
    /// `{ ... }`. Not compiled at all.
    pub notation: bool,
}

/// The options the comma-separated entries from the `i`th on set, on top of
/// `o`.
pub open spec fn options_from(entries: Seq<Seq<char>>, i: int, o: Options) -> Result<
    Options,
    ProblemView,
>
    decreases entries.len() - i,
{
    if i < 0 || i >= entries.len() {
        if o.notation && (o.run || o.should_fail) {
            Err(ProblemView::NotationWithRunOrFail)
        } else {
            Ok(o)
        }
    } else {
        let e = trim(entries[i]);
        if e.len() == 0 {
            options_from(entries, i + 1, o)
        } else if e == "run"@ {
            options_from(entries, i + 1, Options { run: true, ..o })
        } else if e == "shouldFail"@ {
            options_from(entries, i + 1, Options { should_fail: true, ..o })
        } else if e == "notation"@ {
            options_from(entries, i + 1, Options { notation: true, ..o })
        } else {
            Err(ProblemView::UnknownSpecifier(e))
        }
    }
}

/// The options a fence's specifier (what follows `origins`) asks for.
pub open spec fn options_spec(spec: Seq<char>) -> Result<Options, ProblemView> {
    options_from(
        split_on(spec, ','),
        0,
        Options { run: false, should_fail: false, notation: false },
    )
}

impl Options {
    /// Parses the specifier after `origins`: `run`, `shouldFail` and
    /// `notation`, comma-separated, `notation` alone.
    pub fn parse(spec: &str) -> (r: Result<Options, BlockProblem>)
        ensures
            match r {
                Ok(o) => options_spec(spec@) == Ok::<Options, ProblemView>(o),
                Err(e) => options_spec(spec@) == Err::<Options, ProblemView>(e@),
            },
    {
        let s = chars_of(spec);
        Self::parse_chars(&s)
    }

    fn parse_chars(s: &Vec<char>) -> (r: Result<Options, BlockProblem>)
        ensures
            match r {
                Ok(o) => options_spec(s@) == Ok::<Options, ProblemView>(o),
                Err(e) => options_spec(s@) == Err::<Options, ProblemView>(e@),
            },
    {
        let entries = split_range(s, 0, s.len(), ',');
        assert(s@.subrange(0, s@.len() as int) =~= s@);
        let mut o = Options { run: false, should_fail: false, notation: false };
        let mut i: usize = 0;
        while i < entries.len()
            invariant
                i <= entries.len(),
                views(entries@) == split_on(s@, ','),
                options_from(views(entries@), i as int, o) == options_spec(s@),
            decreases entries.len() - i,
        {
            let e = &entries[i];
            assert(views(entries@)[i as int] == e@);
            let (a, b) = trim_range(e, 0, e.len());
            assert(e@.subrange(0, e@.len() as int) =~= e@);
            if a == b {
            } else if range_eq_str(e, a, b, "run") {
                o.run = true;
            } else if range_eq_str(e, a, b, "shouldFail") {
                o.should_fail = true;
            } else if range_eq_str(e, a, b, "notation") {
                o.notation = true;
            } else {
                let mut v: Vec<char> = Vec::new();
                push_range(&mut v, e, a, b);
                return Err(BlockProblem::UnknownSpecifier(string_of(&v)));
            }
            i = i + 1;
        }
        if o.notation && (o.run || o.should_fail) {
            Err(BlockProblem::NotationWithRunOrFail)
        } else {
            Ok(o)
        }
    }

    /// Whether the block is compiled at build time. Checking is the default:
    /// a block that is really code should be able to prove it.
    pub fn checked(&self) -> (r: bool)
        ensures
            r == !self.notation,
    {
        !self.notation
    }
}

// ---------------------------------------------------------------------------
// Rendering one block

/// A marker relabelled: a frame whose text is exactly one lifetime is that
/// lifetime's own box, `oname` rather than `oframe`.
pub open spec fn relabel(code: Seq<char>, m: Span) -> Span {
    match m.class {
        Class::Frame(k) => if is_one_lifetime(seg(code, m.start as int, m.end as int)) {
            Span { class: Class::Name(k), ..m }
        } else {
            m
        },
        _ => m,
    }
}

pub open spec fn relabel_all(code: Seq<char>, markers: Seq<Span>) -> Seq<Span> {
    markers.map_values(|m: Span| relabel(code, m))
}

/// Whether some frame in `markers` boxes exactly one lifetime at `a..b`.
pub open spec fn is_boxed(code: Seq<char>, markers: Seq<Span>, a: usize, b: usize) -> bool {
    exists|i: int|
        0 <= i < markers.len() && markers[i].class is Frame && is_one_lifetime(
            seg(code, markers[i].start as int, markers[i].end as int),
        ) && #[trigger] markers[i].start == a && markers[i].end == b
}

/// The token spans that stay: a boxed lifetime carries no token class of
/// its own, because the box owns its colour.
pub open spec fn keep_tokens(code: Seq<char>, markers: Seq<Span>, toks: Seq<Span>) -> Seq<Span>
    decreases toks.len(),
{
    if toks.len() == 0 {
        Seq::empty()
    } else {
        let r = keep_tokens(code, markers, toks.drop_last());
        let t = toks.last();
        if t.class == Class::Symbol && is_boxed(code, markers, t.start, t.end) {
            r
        } else {
            r.push(t)
        }
    }
}

/// A line of output as it is written into the `pre`: a line holding nothing
/// but whitespace has its first character written as a numeric entity, and
/// an empty line becomes `&#32;`, so the raw-HTML block survives.
pub open spec fn fix_line(l: Seq<char>) -> Seq<char> {
    if !is_blank(l) {
        l
    } else if l.len() > 0 {
        "&#"@ + decimal(l[0] as u32 as nat) + ";"@ + l.drop_first()
    } else {
        "&#32;"@
    }
}

pub open spec fn fix_blank_lines(out: Seq<char>) -> Seq<char> {
    join(split_on(out, '\n').map_values(|l: Seq<char>| fix_line(l)), seq!['\n'])
}

proof fn lemma_decimal_digits(n: nat)
    ensures
        forall|i: int| 0 <= i < decimal(n).len() ==> '0' <= #[trigger] decimal(n)[i] <= '9',
    decreases n,
{
    if n >= 10 {
        lemma_decimal_digits(n / 10);
        assert forall|i: int| 0 <= i < decimal(n).len() implies '0' <= #[trigger] decimal(n)[i]
            <= '9' by {
            if i < decimal(n / 10).len() {
                assert(decimal(n)[i] == decimal(n / 10)[i]);
            }
        }
    }
}

proof fn lemma_fix_line(l: Seq<char>)
    requires
        forall|j: int| 0 <= j < l.len() ==> l[j] != '\n',
    ensures
        !is_blank(fix_line(l)),
        forall|j: int| 0 <= j < fix_line(l).len() ==> #[trigger] fix_line(l)[j] != '\n',
{
    reveal_strlit("&#");
    reveal_strlit(";");
    reveal_strlit("&#32;");
    if is_blank(l) {
        if l.len() > 0 {
            let d = decimal(l[0] as u32 as nat);
            lemma_decimal_digits(l[0] as u32 as nat);
            let f = "&#"@ + d + ";"@ + l.drop_first();
            assert(f[0] == '&');
            assert(!crate::text::is_ws(f[0]));
            assert forall|j: int| 0 <= j < f.len() implies #[trigger] f[j] != '\n' by {
                if j >= 2 + d.len() + 1 {
                    assert(f[j] == l[j - 2 - d.len()]);
                } else if j >= 2 && j < 2 + d.len() {
                    assert(f[j] == d[j - 2]);
                }
            }
        } else {
            assert(fix_line(l)[0] == '&');
        }
    }
}

/// No line of a rendered body is blank. A blank line would end the raw-HTML
/// block the markdown renderer sees and wrap the rest of the `pre` in a
/// `<p>`, so each is written with an entity instead; the lines stay where
/// they were, one output line for each line of the code.
pub proof fn lemma_no_blank_line_in_a_block(out: Seq<char>)
    ensures
        split_on(fix_blank_lines(out), '\n').len() == split_on(out, '\n').len(),
        forall|i: int|
            0 <= i < split_on(fix_blank_lines(out), '\n').len() ==> !is_blank(
                #[trigger] split_on(fix_blank_lines(out), '\n')[i],
            ),
{
    let ps = split_on(out, '\n');
    let fixed = ps.map_values(|l: Seq<char>| fix_line(l));
    crate::lines::lemma_pieces_lack_sep(out, '\n');
    crate::lines::lemma_split_on_nonempty(out, '\n');
    assert forall|i: int| 0 <= i < fixed.len() implies !is_blank(#[trigger] fixed[i]) && (
    forall|j: int| 0 <= j < fixed[i].len() ==> fixed[i][j] != '\n') by {
        assert forall|j: int| 0 <= j < ps[i].len() implies ps[i][j] != '\n' by {}
        lemma_fix_line(ps[i]);
    }
    assert forall|i: int, j: int| 0 <= i < fixed.len() && 0 <= j < fixed[i].len() implies #[trigger] fixed[i][j] != '\n' by {
        assert(!is_blank(fixed[i]));
    }
    crate::lines::lemma_split_join(fixed, '\n');
}

/// The crab a block that does not compile carries.
pub open spec fn crab(opts: Options) -> Seq<char> {
    if opts.should_fail {
        "<div class=\"ferris-container\"><img src=\"img/ferris/does_not_compile.svg\" title=\"This code does not compile!\" class=\"ferris ferris-large\" /></div>"@
    } else {
        Seq::empty()
    }
}

/// The attribute a runnable block carries its program in.
pub open spec fn run_attr(opts: Options, src: Seq<char>) -> Seq<char> {
    if opts.run {
        " data-run-code=\""@ + attribute_spec(program_spec(split_hidden_spec(src).1)) + "\""@
    } else {
        Seq::empty()
    }
}

/// `src` with the one newline that belongs to the closing fence, and then a
/// `\r`, taken off.
pub open spec fn chomp(src: Seq<char>) -> Seq<char> {
    let s1 = if src.len() > 0 && src.last() == '\n' {
        src.drop_last()
    } else {
        src
    };
    if s1.len() > 0 && s1.last() == '\r' {
        s1.drop_last()
    } else {
        s1
    }
}

/// The highlighted body of the code `code` with markers `markers`.
pub open spec fn body_spec(code: Seq<char>, markers: Seq<Span>) -> Seq<char> {
    let labelled = relabel_all(code, markers);
    let tokens = keep_tokens(code, markers, highlight_spec(code, rust_tokens(code)));
    let spans = sort_spans(split_spans(tokens, bounds(labelled)) + labelled);
    fix_blank_lines(emit(code, spans))
}

/// One block's worth of marked-up Rust, rendered.
pub open spec fn render_spec(src: Seq<char>, opts: Options) -> Result<Seq<char>, ProblemView> {
    let src = chomp(src);
    match strip_spec(split_hidden_spec(src).0) {
        Err(e) => Err(e),
        Ok((code, markers)) => Ok(
            "<div class=\"origins-block\""@ + run_attr(opts, src) + ">"@ + crab(opts)
                + "<pre class=\"code hljs\">"@ + body_spec(code, markers) + "</pre></div>"@,
        ),
    }
}

fn relabel_exec(code: &Vec<char>, markers: &Vec<Span>) -> (r: (Vec<Span>, Vec<bool>))
    ensures
        r.0@ == relabel_all(code@, markers@),
        r.1@.len() == markers@.len(),
        forall|i: int|
            0 <= i < markers@.len() ==> #[trigger] r.1@[i] == (markers@[i].class is Frame
                && is_one_lifetime(seg(code@, markers@[i].start as int, markers@[i].end as int))),
{
    let mut out: Vec<Span> = Vec::new();
    let mut boxed: Vec<bool> = Vec::new();
    let mut k: usize = 0;
    while k < markers.len()
        invariant
            k <= markers.len(),
            out@ == relabel_all(code@, markers@.take(k as int)),
            boxed@.len() == k,
            forall|i: int|
                0 <= i < k ==> #[trigger] boxed@[i] == (markers@[i].class is Frame
                    && is_one_lifetime(seg(code@, markers@[i].start as int, markers@[i].end as int))),
        decreases markers.len() - k,
    {
        let m = markers[k];
        let e = if m.end <= code.len() {
            m.end
        } else {
            code.len()
        };
        let text = if m.start < e {
            crate::text::slice_of(code, m.start, e)
        } else {
            Vec::new()
        };
        assert(text@ =~= seg(code@, m.start as int, m.end as int));
        let ghost o = out@;
        match m.class {
            Class::Frame(key) => {
                if one_lifetime(&text) {
                    out.push(Span { class: Class::Name(key), ..m });
                    boxed.push(true);
                } else {
                    out.push(m);
                    boxed.push(false);
                }
            },
            _ => {
                out.push(m);
                boxed.push(false);
            },
        }
        assert(out@ =~= o.push(relabel(code@, m)));
        assert(markers@.take(k + 1) =~= markers@.take(k as int).push(m));
        assert(relabel_all(code@, markers@.take(k + 1)) =~= relabel_all(
            code@,
            markers@.take(k as int),
        ).push(relabel(code@, m)));
        k = k + 1;
    }
    assert(markers@.take(markers.len() as int) =~= markers@);
    (out, boxed)
}

fn is_boxed_exec(markers: &Vec<Span>, boxed: &Vec<bool>, a: usize, b: usize, Ghost(code): Ghost<
    Seq<char>,
>) -> (r: bool)
    requires
        boxed@.len() == markers@.len(),
        forall|i: int|
            0 <= i < markers@.len() ==> #[trigger] boxed@[i] == (markers@[i].class is Frame
                && is_one_lifetime(seg(code, markers@[i].start as int, markers@[i].end as int))),
    ensures
        r == is_boxed(code, markers@, a, b),
{
    let mut k: usize = 0;
    while k < markers.len()
        invariant
            k <= markers.len(),
            boxed@.len() == markers@.len(),
            forall|i: int|
                0 <= i < markers@.len() ==> #[trigger] boxed@[i] == (markers@[i].class is Frame
                    && is_one_lifetime(seg(code, markers@[i].start as int, markers@[i].end as int))),
            forall|i: int|
                0 <= i < k ==> !(#[trigger] boxed@[i] && markers@[i].start == a && markers@[i].end
                    == b),
        decreases markers.len() - k,
    {
        if boxed[k] && markers[k].start == a && markers[k].end == b {
            assert(boxed@[k as int]);
            return true;
        }
        k = k + 1;
    }
    assert forall|i: int|
        0 <= i < markers@.len() && markers@[i].class is Frame && is_one_lifetime(
            seg(code, markers@[i].start as int, markers@[i].end as int),
        ) implies !(#[trigger] markers@[i].start == a && markers@[i].end == b) by {
        assert(boxed@[i]);
    }
    false
}

fn keep_tokens_exec(
    toks: &Vec<Span>,
    markers: &Vec<Span>,
    boxed: &Vec<bool>,
    Ghost(code): Ghost<Seq<char>>,
) -> (r: Vec<Span>)
    requires
        boxed@.len() == markers@.len(),
        forall|i: int|
            0 <= i < markers@.len() ==> #[trigger] boxed@[i] == (markers@[i].class is Frame
                && is_one_lifetime(seg(code, markers@[i].start as int, markers@[i].end as int))),
    ensures
        r@ == keep_tokens(code, markers@, toks@),
{
    let mut out: Vec<Span> = Vec::new();
    let mut k: usize = 0;
    while k < toks.len()
        invariant
            k <= toks.len(),
            boxed@.len() == markers@.len(),
            forall|i: int|
                0 <= i < markers@.len() ==> #[trigger] boxed@[i] == (markers@[i].class is Frame
                    && is_one_lifetime(seg(code, markers@[i].start as int, markers@[i].end as int))),
            out@ == keep_tokens(code, markers@, toks@.take(k as int)),
        decreases toks.len() - k,
    {
        let t = toks[k];
        assert(toks@.take(k + 1).drop_last() =~= toks@.take(k as int));
        if !(t.class == Class::Symbol && is_boxed_exec(markers, boxed, t.start, t.end, Ghost(code))) {
            out.push(t);
        }
        k = k + 1;
    }
    assert(toks@.take(toks.len() as int) =~= toks@);
    out
}

fn fix_blank_lines_exec(out: &Vec<char>) -> (r: Vec<char>)
    ensures
        r@ == fix_blank_lines(out@),
{
    let pieces = split_range(out, 0, out.len(), '\n');
    assert(out@.subrange(0, out@.len() as int) =~= out@);
    let mut fixed: Vec<Vec<char>> = Vec::new();
    let mut k: usize = 0;
    while k < pieces.len()
        invariant
            k <= pieces.len(),
            views(pieces@) == split_on(out@, '\n'),
            views(fixed@) == split_on(out@, '\n').take(k as int).map_values(
                |l: Seq<char>| fix_line(l),
            ),
        decreases pieces.len() - k,
    {
        let l = &pieces[k];
        assert(views(pieces@)[k as int] == l@);
        let mut f: Vec<char> = Vec::new();
        if !blank_range(l, 0, l.len()) {
            push_all(&mut f, l);
        } else if l.len() > 0 {
            push_str(&mut f, "&#");
            push_decimal(&mut f, l[0] as u32 as u64);
            push_str(&mut f, ";");
            push_range(&mut f, l, 1, l.len());
            assert(l@.subrange(1, l@.len() as int) =~= l@.drop_first());
        } else {
            push_str(&mut f, "&#32;");
        }
        assert(l@.subrange(0, l@.len() as int) =~= l@);
        assert(f@ == fix_line(l@));
        let ghost before = views(fixed@);
        fixed.push(f);
        assert(views(fixed@) =~= before.push(fix_line(l@)));
        k = k + 1;
        assert(views(fixed@) =~= split_on(out@, '\n').take(k as int).map_values(
            |l: Seq<char>| fix_line(l),
        ));
    }
    assert(split_on(out@, '\n').take(pieces.len() as int) =~= split_on(out@, '\n'));
    join_exec(&fixed, '\n')
}

fn body_exec(code: &Vec<char>, markers: &Vec<Span>) -> (r: Vec<char>)
    ensures
        r@ == body_spec(code@, markers@),
{
    let (labelled, boxed) = relabel_exec(code, markers);
    let toks = highlight(code);
    let kept = keep_tokens_exec(&toks, markers, &boxed, Ghost(code@));
    let mut spans = split_at_markers(&kept, &labelled);
    let ghost split = spans@;
    let mut k: usize = 0;
    while k < labelled.len()
        invariant
            k <= labelled.len(),
            spans@ == split + labelled@.take(k as int),
        decreases labelled.len() - k,
    {
        spans.push(labelled[k]);
        k = k + 1;
        assert(spans@ =~= split + labelled@.take(k as int));
    }
    assert(labelled@.take(labelled.len() as int) =~= labelled@);
    let sorted = sort_spans_exec(&spans);
    let out = emit_exec(code, &sorted);
    fix_blank_lines_exec(&out)
}

/// Renders one block's worth of marked-up Rust, given as characters.
pub fn render_chars(src: &Vec<char>, opts: &Options) -> (r: Result<Vec<char>, BlockProblem>)
    ensures
        match r {
            Ok(html) => render_spec(src@, *opts) == Ok::<Seq<char>, ProblemView>(html@),
            Err(e) => render_spec(src@, *opts) == Err::<Seq<char>, ProblemView>(e@),
        },
{
    let mut n = src.len();
    if n > 0 && src[n - 1] == '\n' {
        n = n - 1;
    }
    if n > 0 && src[n - 1] == '\r' {
        n = n - 1;
    }
    let s = crate::text::slice_of(src, 0, n);
    assert(s@ =~= chomp(src@));
    let (shown, all) = split_hidden(&s);
    let (code, markers) = match strip(&shown) {
        Ok(r) => r,
        Err(e) => {
            return Err(e);
        },
    };
    let body = body_exec(&code, &markers);
    let mut out: Vec<char> = Vec::new();
    push_str(&mut out, "<div class=\"origins-block\"");
    let ghost o1 = out@;
    if opts.run {
        push_str(&mut out, " data-run-code=\"");
        let p = program(&all);
        let a = attribute(&p);
        push_all(&mut out, &a);
        push_str(&mut out, "\"");
    }
    assert(out@ =~= o1 + run_attr(*opts, s@));
    push_str(&mut out, ">");
    let ghost o2 = out@;
    if opts.should_fail {
        push_str(
            &mut out,
            "<div class=\"ferris-container\"><img src=\"img/ferris/does_not_compile.svg\" title=\"This code does not compile!\" class=\"ferris ferris-large\" /></div>",
        );
    }
    assert(out@ =~= o2 + crab(*opts));
    push_str(&mut out, "<pre class=\"code hljs\">");
    push_all(&mut out, &body);
    push_str(&mut out, "</pre></div>");
    Ok(out)
}

/// Renders one block's worth of marked-up Rust.
pub fn render(src: &str, opts: &Options) -> (r: Result<String, BlockProblem>)
    ensures
        match r {
            Ok(html) => render_spec(src@, *opts) == Ok::<Seq<char>, ProblemView>(html@),
            Err(e) => render_spec(src@, *opts) == Err::<Seq<char>, ProblemView>(e@),
        },
{
    let s = chars_of(src);
    match render_chars(&s, opts) {
        Ok(v) => Ok(string_of(&v)),
        Err(e) => Err(e),
    }
}

} // verus!

verus! {

// ---------------------------------------------------------------------------
// Finding the blocks in a deck

/// Why a deck's ```origins blocks cannot be rendered.
#[derive(Debug)]
pub enum OriginsError {
    /// A fence opened on `line` is never closed.
    UnclosedFence { line: usize },
    /// The block opened on `line` cannot be rendered.
    InBlock { line: usize, problem: BlockProblem },
}

pub enum OriginsErrorView {
    UnclosedFence(usize),
    InBlock(usize, ProblemView),
}

impl View for OriginsError {
    type V = OriginsErrorView;

    open spec fn view(&self) -> OriginsErrorView {
        match self {
            OriginsError::UnclosedFence { line } => OriginsErrorView::UnclosedFence(*line),
            OriginsError::InBlock { line, problem } => OriginsErrorView::InBlock(*line, problem@),
        }
    }
}

/// A block's compilable form, for the build-time check.
#[derive(Debug)]
pub struct Program {
    /// Line the fence opened on, for diagnostics.
    pub line: usize,
    pub code: String,
    pub should_fail: bool,
}

/// A byte range of the deck and the HTML to splice over it.
pub type Replacement = (std::ops::Range<usize>, String);

pub open spec fn replacement_view(r: Replacement) -> (usize, usize, Seq<char>) {
    (r.0.start, r.0.end, r.1@)
}

pub open spec fn program_view(p: Program) -> (usize, Seq<char>, bool) {
    (p.line, p.code@, p.should_fail)
}

/// The number of leading backticks of `t`.
pub open spec fn count_ticks(t: Seq<char>) -> nat
    decreases t.len(),
{
    if t.len() > 0 && t[0] == '`' {
        1 + count_ticks(t.drop_first())
    } else {
        0
    }
}

/// A fence line: its backtick count, at least three, and what follows them.
pub open spec fn fence(line: Seq<char>) -> Option<(nat, Seq<char>)> {
    let t = trim_start(line);
    let k = count_ticks(t);
    if k >= 3 {
        Some((k, t.skip(k as int)))
    } else {
        None
    }
}

/// A line that closes a fence of `ticks` backticks: at least as many, and
/// no info string of its own.
pub open spec fn is_close_fence(line: Seq<char>, ticks: nat) -> bool {
    match fence(line) {
        Some((c, rest)) => c >= ticks && is_blank(rest),
        None => false,
    }
}

/// The number of `\r` and `\n` characters that end `line`.
pub open spec fn trailing_eol(line: Seq<char>) -> nat
    decreases line.len(),
{
    if line.len() > 0 && (line.last() == '\r' || line.last() == '\n') {
        1 + trailing_eol(line.drop_last())
    } else {
        0
    }
}

/// The index just past the line starting at `i`: after its `\n`, or the end.
pub open spec fn line_end(s: Seq<char>, i: int) -> int
    decreases s.len() - i,
{
    if i < 0 || i >= s.len() {
        s.len() as int
    } else if s[i] == '\n' {
        i + 1
    } else {
        line_end(s, i + 1)
    }
}

pub proof fn lemma_line_end(s: Seq<char>, i: int)
    requires
        0 <= i < s.len(),
    ensures
        i < line_end(s, i) <= s.len(),
    decreases s.len() - i,
{
    if s[i] != '\n' {
        if i + 1 < s.len() {
            lemma_line_end(s, i + 1);
        } else {
            assert(line_end(s, i + 1) == s.len());
        }
    }
}

/// What follows `origins` in a fence's info string, if it is an ```origins
/// fence.
pub open spec fn origins_spec_of(info: Seq<char>) -> Option<Seq<char>> {
    let t = trim(info);
    if t.len() >= "origins"@.len() && t.take("origins"@.len() as int) == "origins"@ {
        Some(t.skip("origins"@.len() as int))
    } else {
        None
    }
}

/// Reads a fence's body from line start `k` (line number `n`) until a line
/// closing a fence of `ticks` backticks. Returns where reading stopped, the
/// line number there, the body, and the byte offset of the end of the
/// closing fence without its line terminator, if one was found.
pub open spec fn scan_body(s: Seq<char>, k: int, n: int, ticks: nat, body: Seq<char>) -> (
    int,
    int,
    Seq<char>,
    Option<int>,
)
    decreases s.len() - k,
{
    if k < 0 || k >= s.len() {
        (s.len() as int, n, body, None)
    } else {
        let e = line_end(s, k);
        proof {
            lemma_line_end(s, k);
        }
        let line = s.subrange(k, e);
        if is_close_fence(line, ticks) {
            (e, n + 1, body, Some(utf8_len(s.take(e)) - trailing_eol(line)))
        } else {
            scan_body(s, e, n + 1, ticks, body + line)
        }
    }
}

pub proof fn lemma_scan_body(s: Seq<char>, k: int, n: int, ticks: nat, body: Seq<char>)
    requires
        0 <= k <= s.len(),
    ensures
        k <= scan_body(s, k, n, ticks, body).0 <= s.len(),
        scan_body(s, k, n, ticks, body).1 - n <= scan_body(s, k, n, ticks, body).0 - k,
        n <= scan_body(s, k, n, ticks, body).1,
        k < s.len() ==> k < scan_body(s, k, n, ticks, body).0,
    decreases s.len() - k,
{
    if k < s.len() {
        lemma_line_end(s, k);
        let e = line_end(s, k);
        if !is_close_fence(s.subrange(k, e), ticks) {
            lemma_scan_body(s, e, n + 1, ticks, body + s.subrange(k, e));
        }
    }
}

/// The body without the newline before the closing fence.
pub open spec fn strip_nl(body: Seq<char>) -> Seq<char> {
    if body.len() > 0 && body.last() == '\n' {
        body.drop_last()
    } else {
        body
    }
}

/// The replacements and programs for the blocks from line start `i` (line
/// number `n` of the file) on.
pub open spec fn repl_from(
    s: Seq<char>,
    i: int,
    n: int,
    out: Seq<(usize, usize, Seq<char>)>,
    progs: Seq<(usize, Seq<char>, bool)>,
) -> Result<(Seq<(usize, usize, Seq<char>)>, Seq<(usize, Seq<char>, bool)>), OriginsErrorView>
    decreases s.len() - i,
{
    if i < 0 || i >= s.len() {
        Ok((out, progs))
    } else {
        let e = line_end(s, i);
        proof {
            lemma_line_end(s, i);
        }
        let line = s.subrange(i, e);
        let start = utf8_len(s.take(i));
        match fence(line) {
            None => repl_from(s, e, n + 1, out, progs),
            Some((ticks, info)) => {
                let (next, n2, body, end) = scan_body(s, e, n + 1, ticks, Seq::empty());
                proof {
                    lemma_scan_body(s, e, n + 1, ticks, Seq::empty());
                }
                match origins_spec_of(info) {
                    None => repl_from(s, next, n2, out, progs),
                    Some(spec) => match end {
                        None => Err(OriginsErrorView::UnclosedFence(n as usize)),
                        Some(end) => match options_spec(spec) {
                            Err(p) => Err(OriginsErrorView::InBlock(n as usize, p)),
                            Ok(o) => match render_spec(body, o) {
                                Err(p) => Err(OriginsErrorView::InBlock(n as usize, p)),
                                Ok(html) => {
                                    let out2 = out.push((start as usize, end as usize, html));
                                    let progs2 = if !o.notation {
                                        progs.push(
                                            (
                                                n as usize,
                                                program_spec(split_hidden_spec(strip_nl(body)).1),
                                                o.should_fail,
                                            ),
                                        )
                                    } else {
                                        progs
                                    };
                                    repl_from(s, next, n2, out2, progs2)
                                },
                            },
                        },
                    },
                }
            },
        }
    }
}

/// Every ```origins fence in `content`: the byte range of its fence lines
/// with the HTML to splice over it, and the programs to check. `first_line`
/// is the line number `content` starts at in the file.
pub open spec fn replacements_spec(content: Seq<char>, first_line: nat) -> Result<
    (Seq<(usize, usize, Seq<char>)>, Seq<(usize, Seq<char>, bool)>),
    OriginsErrorView,
> {
    repl_from(content, 0, first_line as int, Seq::empty(), Seq::empty())
}

} // verus!

verus! {

pub(crate) fn line_end_exec(s: &Vec<char>, i: usize) -> (e: usize)
    requires
        i < s.len(),
    ensures
        e as int == line_end(s@, i as int),
        i < e <= s.len(),
{
    proof {
        lemma_line_end(s@, i as int);
    }
    let mut j = i;
    while j < s.len()
        invariant
            i <= j <= s.len(),
            line_end(s@, j as int) == line_end(s@, i as int),
        decreases s.len() - j,
    {
        if s[j] == '\n' {
            return j + 1;
        }
        j = j + 1;
    }
    j
}

/// The fence on line `s[lo..hi]`: its backtick count and where its info
/// string starts.
fn fence_exec(s: &Vec<char>, lo: usize, hi: usize) -> (r: Option<(usize, usize)>)
    requires
        lo <= hi <= s.len(),
    ensures
        match r {
            Some((t, k)) => k <= hi && fence(s@.subrange(lo as int, hi as int)) == Some(
                (t as nat, s@.subrange(k as int, hi as int)),
            ),
            None => fence(s@.subrange(lo as int, hi as int)) is None,
        },
{
    let k = skip_ws(s, lo, hi);
    let mut j = k;
    while j < hi && s[j] == '`'
        invariant
            k <= j <= hi <= s.len(),
            count_ticks(s@.subrange(k as int, hi as int)) == (j - k) + count_ticks(
                s@.subrange(j as int, hi as int),
            ),
        decreases hi - j,
    {
        assert(s@.subrange(j as int, hi as int).drop_first() =~= s@.subrange(j + 1, hi as int));
        j = j + 1;
    }
    let ghost t = s@.subrange(k as int, hi as int);
    assert(count_ticks(t) == j - k);
    if j - k >= 3 {
        assert(t.skip((j - k) as int) =~= s@.subrange(j as int, hi as int));
        Some((j - k, j))
    } else {
        None
    }
}

fn is_close_fence_exec(s: &Vec<char>, lo: usize, hi: usize, ticks: usize) -> (r: bool)
    requires
        lo <= hi <= s.len(),
    ensures
        r == is_close_fence(s@.subrange(lo as int, hi as int), ticks as nat),
{
    match fence_exec(s, lo, hi) {
        Some((c, k)) => c >= ticks && blank_range(s, k, hi),
        None => false,
    }
}

fn trailing_eol_exec(s: &Vec<char>, lo: usize, hi: usize) -> (r: usize)
    requires
        lo <= hi <= s.len(),
    ensures
        r == trailing_eol(s@.subrange(lo as int, hi as int)),
        r <= hi - lo,
{
    let mut j = hi;
    while j > lo && (s[j - 1] == '\r' || s[j - 1] == '\n')
        invariant
            lo <= j <= hi <= s.len(),
            trailing_eol(s@.subrange(lo as int, hi as int)) == (hi - j) + trailing_eol(
                s@.subrange(lo as int, j as int),
            ),
        decreases j - lo,
    {
        assert(s@.subrange(lo as int, j as int).drop_last() =~= s@.subrange(lo as int, j - 1));
        j = j - 1;
    }
    hi - j
}

proof fn lemma_utf8_prefix(s: Seq<char>, j: int)
    requires
        0 <= j <= s.len(),
    ensures
        utf8_len(s.take(j)) <= utf8_len(s),
{
    crate::text::lemma_utf8_len_concat(s.take(j), s.skip(j));
    assert(s.take(j) + s.skip(j) =~= s);
}

/// The number of bytes the first `i` characters of `s` take in UTF-8.
fn utf8_prefix(s: &Vec<char>, i: usize) -> (r: usize)
    requires
        i <= s.len(),
        utf8_len(s@) <= usize::MAX,
    ensures
        r == utf8_len(s@.take(i as int)),
{
    let mut acc: usize = 0;
    let mut j: usize = 0;
    while j < i
        invariant
            j <= i <= s.len(),
            utf8_len(s@) <= usize::MAX,
            acc == utf8_len(s@.take(j as int)),
        decreases i - j,
    {
        assert(s@.take(j + 1).drop_last() =~= s@.take(j as int));
        proof {
            lemma_utf8_prefix(s@, j + 1);
        }
        acc = acc + crate::text::utf8_width_exec(s[j]);
        j = j + 1;
    }
    acc
}

/// The range of what follows `origins` in the info string `s[lo..hi]`.
fn origins_spec_exec(s: &Vec<char>, lo: usize, hi: usize) -> (r: Option<(usize, usize)>)
    requires
        lo <= hi <= s.len(),
    ensures
        match r {
            Some((a, b)) => a <= b <= s.len() && origins_spec_of(s@.subrange(lo as int, hi as int))
                == Some(s@.subrange(a as int, b as int)),
            None => origins_spec_of(s@.subrange(lo as int, hi as int)) is None,
        },
{
    let (a, b) = trim_range(s, lo, hi);
    let p = chars_of("origins");
    let ghost t = trim(s@.subrange(lo as int, hi as int));
    if b - a >= p.len() && range_eq_str(s, a, a + p.len(), "origins") {
        assert(t.take(p.len() as int) =~= s@.subrange(a as int, a + p.len()));
        assert(t.skip(p.len() as int) =~= s@.subrange(a + p.len(), b as int));
        Some((a + p.len(), b))
    } else {
        proof {
            if t.len() >= p@.len() {
                assert(t.take(p@.len() as int) =~= s@.subrange(a as int, a + p@.len()));
            }
        }
        None
    }
}

/// Every ```origins fence in `content`, as a byte range to splice HTML over,
/// and the programs to check.
///
/// Ranges cover the fence lines themselves, and are computed against
/// `content` as given. `first_line` is the line number `content` starts at
/// in the file on disk, so that a diagnostic names the line the author sees.
/// Every fence is consumed to its close, whether or not it is ours, so that
/// an ```origins example inside a longer fence is left as the text it is.
pub fn replacements(content: &str, first_line: usize) -> (r: Result<
    (Vec<Replacement>, Vec<Program>),
    OriginsError,
>)
    requires
        first_line + utf8_len(content@) <= usize::MAX,
    ensures
        match r {
            Ok((reps, progs)) => replacements_spec(content@, first_line as nat) == Ok::<
                (Seq<(usize, usize, Seq<char>)>, Seq<(usize, Seq<char>, bool)>),
                OriginsErrorView,
            >((reps@.map_values(|x: Replacement| replacement_view(x)), progs@.map_values(|p: Program| program_view(p)))),
            Err(e) => replacements_spec(content@, first_line as nat) == Err::<
                (Seq<(usize, usize, Seq<char>)>, Seq<(usize, Seq<char>, bool)>),
                OriginsErrorView,
            >(e@),
        },
{
    let s = chars_of(content);
    proof {
        crate::text::lemma_utf8_len_ge(s@);
    }
    let mut out: Vec<Replacement> = Vec::new();
    let mut progs: Vec<Program> = Vec::new();
    let mut i: usize = 0;
    let mut n: usize = first_line;
    assert(out@.map_values(|x: Replacement| replacement_view(x)) =~= Seq::<(usize, usize, Seq<char>)>::empty());
    assert(progs@.map_values(|p: Program| program_view(p)) =~= Seq::<(usize, Seq<char>, bool)>::empty());
    while i < s.len()
        invariant
            s@ == content@,
            i <= s.len(),
            first_line <= n,
            n - first_line <= i,
            first_line + utf8_len(s@) <= usize::MAX,
            s@.len() <= utf8_len(s@),
            repl_from(
                s@,
                i as int,
                n as int,
                out@.map_values(|x: Replacement| replacement_view(x)),
                progs@.map_values(|p: Program| program_view(p)),
            ) == replacements_spec(s@, first_line as nat),
        decreases s.len() - i,
    {
        let e = line_end_exec(&s, i);
        let f = fence_exec(&s, i, e);
        match f {
            None => {
                i = e;
                n = n + 1;
            },
            Some((ticks, info)) => {
                // Read the body up to the closing fence.
                let mut k = e;
                let mut n2 = n + 1;
                let mut body: Vec<char> = Vec::new();
                let mut end: Option<usize> = None;
                proof {
                    lemma_scan_body(s@, e as int, n + 1, ticks as nat, Seq::empty());
                }
                while k < s.len()
                    invariant_except_break
                        e <= k <= s.len(),
                        n + 1 <= n2,
                        n2 - (n + 1) <= k - e,
                        end is None,
                        scan_body(s@, k as int, n2 as int, ticks as nat, body@) == scan_body(
                            s@,
                            e as int,
                            n + 1,
                            ticks as nat,
                            Seq::empty(),
                        ),
                    invariant
                        utf8_len(s@) <= usize::MAX,
                        first_line + utf8_len(s@) <= usize::MAX,
                        s@.len() <= utf8_len(s@),
                        n - first_line <= i < e,
                    ensures
                        scan_body(s@, e as int, n + 1, ticks as nat, Seq::empty()) == (
                            k as int,
                            n2 as int,
                            body@,
                            match end {
                                Some(x) => Some(x as int),
                                None => None::<int>,
                            },
                        ),
                        e <= k <= s.len(),
                        n2 - (n + 1) <= k - e,
                    decreases s.len() - k,
                {
                    let le = line_end_exec(&s, k);
                    if is_close_fence_exec(&s, k, le, ticks) {
                        let bytes = utf8_prefix(&s, le);
                        let t = trailing_eol_exec(&s, k, le);
                        proof {
                            crate::text::lemma_utf8_len_ge(s@.take(le as int));
                            assert(s@.take(le as int).subrange(k as int, le as int) =~= s@.subrange(k as int, le as int));
                            assert(s@.take(le as int) =~= s@.take(k as int) + s@.subrange(k as int, le as int));
                            crate::text::lemma_utf8_len_concat(s@.take(k as int), s@.subrange(k as int, le as int));
                            crate::text::lemma_utf8_len_ge(s@.subrange(k as int, le as int));
                        }
                        end = Some(bytes - t);
                        k = le;
                        n2 = n2 + 1;
                        break;
                    }
                    push_range(&mut body, &s, k, le);
                    k = le;
                    n2 = n2 + 1;
                }
                if k >= s.len() && end.is_none() {
                    assert(scan_body(s@, k as int, n2 as int, ticks as nat, body@) == (
                        s@.len() as int,
                        n2 as int,
                        body@,
                        None::<int>,
                    ));
                }
                match origins_spec_exec(&s, info, e) {
                    None => {
                        i = k;
                        n = n2;
                    },
                    Some((sa, sb)) => {
                        let end = match end {
                            None => {
                                return Err(OriginsError::UnclosedFence { line: n });
                            },
                            Some(x) => x,
                        };
                        let spec_chars = crate::text::slice_of(&s, sa, sb);
                        let opts = match Options::parse_chars(&spec_chars) {
                            Ok(o) => o,
                            Err(p) => {
                                return Err(OriginsError::InBlock { line: n, problem: p });
                            },
                        };
                        let html = match render_chars(&body, &opts) {
                            Ok(h) => h,
                            Err(p) => {
                                return Err(OriginsError::InBlock { line: n, problem: p });
                            },
                        };
                        let start = utf8_prefix(&s, i);
                        let ghost old_out = out@.map_values(|x: Replacement| replacement_view(x));
                        out.push((start..end, string_of(&html)));
                        assert(out@.map_values(|x: Replacement| replacement_view(x)) =~= old_out.push(
                            (start, end, html@),
                        ));
                        if opts.checked() {
                            let mut bl = body.len();
                            if bl > 0 && body[bl - 1] == '\n' {
                                bl = bl - 1;
                            }
                            let trimmed = crate::text::slice_of(&body, 0, bl);
                            assert(trimmed@ =~= strip_nl(body@));
                            let (_, all) = split_hidden(&trimmed);
                            let code = program(&all);
                            let ghost old_progs = progs@.map_values(|p: Program| program_view(p));
                            progs.push(Program { line: n, code: string_of(&code), should_fail: opts.should_fail });
                            assert(progs@.map_values(|p: Program| program_view(p)) =~= old_progs.push(
                                (n, code@, opts.should_fail),
                            ));
                        }
                        i = k;
                        n = n2;

                    },
                }
            },
        }
    }
    Ok((out, progs))
}

} // verus!

verus! {

// ---------------------------------------------------------------------------
// Messages

/// What a [`BlockProblem`] says.
pub open spec fn problem_message(p: ProblemView) -> Seq<char> {
    match p {
        ProblemView::UnknownSpecifier(e) => "unknown ```origins specifier `"@ + e
            + "`, expected one of run, shouldFail, notation"@,
        ProblemView::NotationWithRunOrFail => "`notation` says the block is not a program, so it cannot also be `run` or `shouldFail`"@,
        ProblemView::UnmatchedClose => "`:]]` with no matching `[[` origin marker"@,
        ProblemView::UnclosedMarker => "unclosed origin marker"@,
    }
}

/// What an [`OriginsError`] says, the cause after the context.
pub open spec fn error_message(e: OriginsErrorView) -> Seq<char> {
    match e {
        OriginsErrorView::UnclosedFence(l) => decimal(l as nat) + ": unclosed ```origins fence"@,
        OriginsErrorView::InBlock(l, p) => "in the ```origins block at line "@ + decimal(l as nat)
            + ": "@ + problem_message(p),
    }
}

fn push_problem(out: &mut Vec<char>, p: &BlockProblem)
    ensures
        final(out)@ == old(out)@ + problem_message(p@),
{
    match p {
        BlockProblem::UnknownSpecifier(e) => {
            push_str(out, "unknown ```origins specifier `");
            push_str(out, e.as_str());
            push_str(out, "`, expected one of run, shouldFail, notation");
        },
        BlockProblem::NotationWithRunOrFail => push_str(
            out,
            "`notation` says the block is not a program, so it cannot also be `run` or `shouldFail`",
        ),
        BlockProblem::UnmatchedClose => push_str(out, "`:]]` with no matching `[[` origin marker"),
        BlockProblem::UnclosedMarker => push_str(out, "unclosed origin marker"),
    }
}

impl BlockProblem {
    /// The problem, as a sentence.
    pub fn message(&self) -> (r: String)
        ensures
            r@ == problem_message(self@),
    {
        let mut out: Vec<char> = Vec::new();
        push_problem(&mut out, self);
        string_of(&out)
    }
}

impl OriginsError {
    /// The error and its cause: `in the ```origins block at line 4: unclosed
    /// origin marker`.
    pub fn message(&self) -> (r: String)
        ensures
            r@ == error_message(self@),
    {
        let mut out: Vec<char> = Vec::new();
        match self {
            OriginsError::UnclosedFence { line } => {
                push_decimal(&mut out, *line as u64);
                push_str(&mut out, ": unclosed ```origins fence");
            },
            OriginsError::InBlock { line, problem } => {
                push_str(&mut out, "in the ```origins block at line ");
                push_decimal(&mut out, *line as u64);
                push_str(&mut out, ": ");
                push_problem(&mut out, problem);
            },
        }
        string_of(&out)
    }
}

// ---------------------------------------------------------------------------
// Checking blocks against their fences

/// What compiling a program gave: `None` when it compiled, the compiler's
/// message when it did not.
pub open spec fn outcome_view(o: Result<(), String>) -> Option<Seq<char>> {
    match o {
        Ok(()) => None,
        Err(e) => Some(e@),
    }
}

/// The compiler's message, each line indented by eight spaces.
pub open spec fn indent_lines(e: Seq<char>) -> Seq<char> {
    join(lines(e).map_values(|l: Seq<char>| "        "@ + l), seq!['\n'])
}

/// What disagrees with its fence about one block, if anything.
pub open spec fn problem_for(p: (usize, Seq<char>, bool), o: Option<Seq<char>>) -> Option<Seq<char>> {
    match o {
        None => if p.2 {
            Some(decimal(p.0 as nat) + ": the ```origins block is marked shouldFail but compiles"@)
        } else {
            None
        },
        Some(e) => if p.2 {
            None
        } else {
            Some(decimal(p.0 as nat)
                + ": the ```origins block does not compile. Mark it shouldFail if that is the point of the slide, or notation if it is not a program.\n"@
                + indent_lines(e))
        },
    }
}

/// The problems of every block, in order.
pub open spec fn check_spec(progs: Seq<(usize, Seq<char>, bool)>, outs: Seq<Option<Seq<char>>>) -> Seq<
    Seq<char>,
>
    decreases progs.len(),
{
    if progs.len() == 0 || outs.len() == 0 {
        Seq::empty()
    } else {
        let r = check_spec(progs.drop_last(), outs.drop_last());
        match problem_for(progs.last(), outs.last()) {
            Some(m) => r.push(m),
            None => r,
        }
    }
}

/// `fn main` as written in a block.
pub open spec fn fn_main() -> Seq<char> {
    seq!['f', 'n', ' ', 'm', 'a', 'i', 'n']
}

/// Whether `fn main` stands at `i` as words of their own: no identifier
/// character runs into it from either side.
pub open spec fn main_at(code: Seq<char>, i: int) -> bool {
    crate::text::matches_at(code, i, fn_main()) && (i == 0 || !is_ident_char(code[i - 1])) && (i
        + 7 >= code.len() || !is_ident_char(code[i + 7]))
}

/// Whether a block's program defines `main`.
pub open spec fn has_main(code: Seq<char>) -> bool {
    exists|i: int| 0 <= i < code.len() && #[trigger] main_at(code, i)
}

/// The arguments `rustc` checks a block's program with, the file being
/// `main.rs`: a program with a `main` is checked as a binary, one without as
/// a set of items, and `unused` warnings are allowed, since a slide shows
/// what makes its point and nothing else. Only metadata is emitted.
pub open spec fn check_args_spec(code: Seq<char>) -> Seq<Seq<char>> {
    seq![
        "--edition"@,
        "2021"@,
        "--crate-type"@,
        if has_main(code) {
            "bin"@
        } else {
            "lib"@
        },
        "-A"@,
        "unused"@,
        "--emit=metadata"@,
        "-o"@,
        "checked"@,
        "main.rs"@,
    ]
}

fn ident_char_exec(c: char) -> (r: bool)
    ensures
        r == is_ident_char(c),
{
    crate::text::ascii_alnum(c) || c == '_'
}

/// Whether a block's program defines `main`.
pub fn defines_main(code: &str) -> (r: bool)
    ensures
        r == has_main(code@),
{
    let c = chars_of(code);
    let mut pat: Vec<char> = Vec::new();
    push_str(&mut pat, "fn main");
    proof {
        reveal_strlit("fn main");
    }
    assert(pat@ =~= fn_main());
    let mut i: usize = 0;
    while i < c.len()
        invariant
            i <= c.len(),
            c@ == code@,
            pat@ == fn_main(),
            forall|j: int| 0 <= j < i ==> !#[trigger] main_at(c@, j),
        decreases c.len() - i,
    {
        if crate::text::matches_at_exec(&c, i, &pat) && (i == 0 || !ident_char_exec(c[i - 1])) && (
        i + 7 >= c.len() || !ident_char_exec(c[i + 7])) {
            assert(main_at(c@, i as int));
            return true;
        }
        i = i + 1;
    }
    false
}

fn string_from(lit: &str) -> (r: String)
    ensures
        r@ == lit@,
{
    let mut v: Vec<char> = Vec::new();
    push_str(&mut v, lit);
    string_of(&v)
}

/// The arguments `rustc` checks a block's program with.
pub fn check_args(code: &str) -> (r: Vec<String>)
    ensures
        r@.map_values(|a: String| a@) == check_args_spec(code@),
{
    let mut r: Vec<String> = Vec::new();
    r.push(string_from("--edition"));
    r.push(string_from("2021"));
    r.push(string_from("--crate-type"));
    if defines_main(code) {
        r.push(string_from("bin"));
    } else {
        r.push(string_from("lib"));
    }
    r.push(string_from("-A"));
    r.push(string_from("unused"));
    r.push(string_from("--emit=metadata"));
    r.push(string_from("-o"));
    r.push(string_from("checked"));
    r.push(string_from("main.rs"));
    assert(r@.map_values(|a: String| a@) =~= check_args_spec(code@));
    r
}

/// Whether what compiling a block gave disagrees with its fence: it
/// compiled though marked `shouldFail`, or failed though not so marked.
pub open spec fn disagrees(p: (usize, Seq<char>, bool), o: Option<Seq<char>>) -> bool {
    (o is None) == p.2
}

/// How many blocks disagree with their fences.
pub open spec fn disagreements(progs: Seq<(usize, Seq<char>, bool)>, outs: Seq<Option<Seq<char>>>) -> nat
    decreases progs.len(),
{
    if progs.len() == 0 || outs.len() == 0 {
        0
    } else {
        disagreements(progs.drop_last(), outs.drop_last()) + if disagrees(
            progs.last(),
            outs.last(),
        ) {
            1nat
        } else {
            0nat
        }
    }
}

/// Each block that disagrees with its fence is reported once, and no block
/// that agrees is reported: a `shouldFail` block that compiles fails the
/// build just as an unmarked block that does not compile does.
pub proof fn lemma_one_report_per_disagreement(
    progs: Seq<(usize, Seq<char>, bool)>,
    outs: Seq<Option<Seq<char>>>,
)
    ensures
        check_spec(progs, outs).len() == disagreements(progs, outs),
    decreases progs.len(),
{
    if progs.len() > 0 && outs.len() > 0 {
        lemma_one_report_per_disagreement(progs.drop_last(), outs.drop_last());
    }
}

/// Reports every checked block that disagrees with its fence: one marked
/// `shouldFail` that compiles, or one not so marked that does not.
/// `outcomes[i]` is what compiling `programs[i].code` gave.
pub fn check(programs: &[Program], outcomes: &[Result<(), String>]) -> (r: Vec<String>)
    requires
        programs@.len() == outcomes@.len(),
    ensures
        r@.map_values(|s: String| s@) == check_spec(
            programs@.map_values(|p: Program| program_view(p)),
            outcomes@.map_values(|o: Result<(), String>| outcome_view(o)),
        ),
{
    let ghost pv = programs@.map_values(|p: Program| program_view(p));
    let ghost ov = outcomes@.map_values(|o: Result<(), String>| outcome_view(o));
    let mut out: Vec<String> = Vec::new();
    let mut k: usize = 0;
    assert(out@.map_values(|s: String| s@) =~= check_spec(pv.take(0), ov.take(0)));
    while k < programs.len()
        invariant
            k <= programs.len(),
            programs@.len() == outcomes@.len(),
            pv == programs@.map_values(|p: Program| program_view(p)),
            ov == outcomes@.map_values(|o: Result<(), String>| outcome_view(o)),
            out@.map_values(|s: String| s@) == check_spec(pv.take(k as int), ov.take(k as int)),
        decreases programs.len() - k,
    {
        let p = &programs[k];
        let o = &outcomes[k];
        assert(pv.take(k + 1).drop_last() =~= pv.take(k as int));
        assert(ov.take(k + 1).drop_last() =~= ov.take(k as int));
        assert(pv.take(k + 1).last() == program_view(*p));
        assert(ov.take(k + 1).last() == outcome_view(*o));
        let ghost before = out@.map_values(|s: String| s@);
        match o {
            Ok(()) => {
                if p.should_fail {
                    let mut m: Vec<char> = Vec::new();
                    push_decimal(&mut m, p.line as u64);
                    push_str(&mut m, ": the ```origins block is marked shouldFail but compiles");
                    out.push(string_of(&m));
                    assert(out@.map_values(|s: String| s@) =~= before.push(m@));
                }
            },
            Err(e) => {
                if !p.should_fail {
                    let mut m: Vec<char> = Vec::new();
                    push_decimal(&mut m, p.line as u64);
                    push_str(
                        &mut m,
                        ": the ```origins block does not compile. Mark it shouldFail if that is the point of the slide, or notation if it is not a program.\n",
                    );
                    let ec = chars_of(e.as_str());
                    let ls = crate::lines::lines_of(&ec);
                    let mut indented: Vec<Vec<char>> = Vec::new();
                    let mut j: usize = 0;
                    while j < ls.len()
                        invariant
                            j <= ls.len(),
                            views(ls@) == lines(ec@),
                            views(indented@) == lines(ec@).take(j as int).map_values(
                                |l: Seq<char>| "        "@ + l,
                            ),
                        decreases ls.len() - j,
                    {
                        let mut l: Vec<char> = Vec::new();
                        push_str(&mut l, "        ");
                        push_all(&mut l, &ls[j]);
                        assert(views(ls@)[j as int] == ls@[j as int]@);
                        let ghost bi = views(indented@);
                        indented.push(l);
                        assert(views(indented@) =~= bi.push("        "@ + lines(ec@)[j as int]));
                        j = j + 1;
                        assert(views(indented@) =~= lines(ec@).take(j as int).map_values(
                            |l: Seq<char>| "        "@ + l,
                        ));
                    }
                    assert(lines(ec@).take(ls.len() as int) =~= lines(ec@));
                    let joined = join_exec(&indented, '\n');
                    push_all(&mut m, &joined);
                    out.push(string_of(&m));
                    assert(out@.map_values(|s: String| s@) =~= before.push(m@));
                }
            },
        }
        k = k + 1;
    }
    assert(pv.take(programs.len() as int) =~= pv);
    assert(ov.take(programs.len() as int) =~= ov);
    out
}

} // verus!

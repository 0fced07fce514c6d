//! The origin-marker notation of ```origins blocks: hidden lines, the
//! program a block stands for, and the boxes its markers ask for.
//!
//! ```text
//! 'a             a lifetime, as ordinary syntax: no box
//! '?a            neutral box: a variable ranging over origins
//! '!a            box in origin a's colour: the concrete origin `a`
//! [[a:TEXT:]]    frame TEXT in origin a's box; nests
//! [[?:TEXT:]]    frame TEXT in a box with no origin colour
//! [[*:TEXT:]]    tight dashed box: what is actually borrowed
//! ```

use vstd::prelude::*;
use crate::lines::{join, join_exec, split_on, split_range, views};
use crate::text::{is_ascii_alnum, is_ascii_alpha, is_ws, ascii_alnum, ascii_alpha, lemma_trim_start_len, push_range, skip_ws, trim_start};

verus! {

/// The class of a `<span>` in a rendered block.
#[derive(Clone, Copy, PartialEq, Eq, Debug, Structural)]
pub enum Class {
    /// `oframe`, with `origin-<key>` when the box has an origin's colour.
    Frame(Option<char>),
    /// `oname`: a box around exactly one lifetime.
    Name(Option<char>),
    /// `oexact`: the dashed box.
    Exact,
    Comment,
    Number,
    Str,
    Symbol,
    BuiltIn,
    Keyword,
    Type,
    Title,
}

/// A `<span>` wrapped around the characters `start..end` of the code.
#[derive(Clone, Copy, PartialEq, Eq, Debug, Structural)]
pub struct Span {
    pub start: usize,
    pub end: usize,
    pub class: Class,
    /// Marker boxes sort outside token spans covering the same range.
    pub is_marker: bool,
}

/// Why a block cannot be rendered.
#[derive(Debug)]
pub enum BlockProblem {
    /// A specifier after `origins` that is none of `run`, `shouldFail`,
    /// `notation`.
    UnknownSpecifier(String),
    /// `notation` together with `run` or `shouldFail`.
    NotationWithRunOrFail,
    /// `:]]` with no frame open.
    UnmatchedClose,
    /// A frame still open at the end of the block.
    UnclosedMarker,
}

/// A [`BlockProblem`] as the contracts see it.
pub enum ProblemView {
    UnknownSpecifier(Seq<char>),
    NotationWithRunOrFail,
    UnmatchedClose,
    UnclosedMarker,
}

impl View for BlockProblem {
    type V = ProblemView;

    open spec fn view(&self) -> ProblemView {
        match self {
            BlockProblem::UnknownSpecifier(s) => ProblemView::UnknownSpecifier(s@),
            BlockProblem::NotationWithRunOrFail => ProblemView::NotationWithRunOrFail,
            BlockProblem::UnmatchedClose => ProblemView::UnmatchedClose,
            BlockProblem::UnclosedMarker => ProblemView::UnclosedMarker,
        }
    }
}

/// The class a frame key asks for: `*` the dashed box, `?` a box with no
/// origin colour, anything else that origin's colour.
pub open spec fn frame_class_spec(key: char) -> Class {
    if key == '*' {
        Class::Exact
    } else if key == '?' {
        Class::Frame(None)
    } else {
        Class::Frame(Some(key))
    }
}

pub fn frame_class(key: char) -> (c: Class)
    ensures
        c == frame_class_spec(key),
{
    if key == '*' {
        Class::Exact
    } else if key == '?' {
        Class::Frame(None)
    } else {
        Class::Frame(Some(key))
    }
}

// ---------------------------------------------------------------------------
// Hidden lines

/// One line of a block: what is shown of it, if anything, and what is
/// compiled of it. `# ` hides a line, a lone `#` hides an empty one, and
/// `##` shows a single `#`.
pub open spec fn hidden_line(line: Seq<char>) -> (Option<Seq<char>>, Seq<char>) {
    let rest = trim_start(line);
    let indent = line.take(line.len() - rest.len());
    if rest.len() >= 2 && rest[0] == '#' && rest[1] == ' ' {
        (None, indent + rest.skip(2))
    } else if rest.len() == 1 && rest[0] == '#' {
        (None, indent)
    } else if rest.len() >= 2 && rest[0] == '#' && rest[1] == '#' {
        let shown = indent.push('#') + rest.skip(2);
        (Some(shown), shown)
    } else {
        (Some(line), line)
    }
}

pub open spec fn shown_lines(lines: Seq<Seq<char>>) -> Seq<Seq<char>>
    decreases lines.len(),
{
    if lines.len() == 0 {
        Seq::empty()
    } else {
        let s = shown_lines(lines.drop_last());
        match hidden_line(lines.last()).0 {
            Some(x) => s.push(x),
            None => s,
        }
    }
}

pub open spec fn compiled_lines(lines: Seq<Seq<char>>) -> Seq<Seq<char>> {
    lines.map_values(|l: Seq<char>| hidden_line(l).1)
}

/// A block body split into the text that is shown and the whole program.
pub open spec fn split_hidden_spec(body: Seq<char>) -> (Seq<char>, Seq<char>) {
    let lines = split_on(body, '\n');
    (join(shown_lines(lines), seq!['\n']), join(compiled_lines(lines), seq!['\n']))
}

fn hidden_line_exec(line: &Vec<char>) -> (r: (Option<Vec<char>>, Vec<char>))
    ensures
        r.1@ == hidden_line(line@).1,
        match r.0 {
            Some(x) => hidden_line(line@).0 == Some(x@),
            None => hidden_line(line@).0 is None,
        },
{
    let n = line.len();
    let k = skip_ws(line, 0, n);
    assert(line@.subrange(0, n as int) =~= line@);
    let ghost rest = trim_start(line@);
    proof {
        lemma_trim_start_len(line@);
    }
    assert(rest =~= line@.subrange(k as int, n as int));
    let mut indent: Vec<char> = Vec::new();
    push_range(&mut indent, line, 0, k);
    assert(indent@ =~= line@.take(line@.len() - rest.len()));
    if n - k >= 2 && line[k] == '#' && line[k + 1] == ' ' {
        let mut all = indent;
        push_range(&mut all, line, k + 2, n);
        assert(rest.skip(2) =~= line@.subrange(k + 2, n as int));
        (None, all)
    } else if n - k == 1 && line[k] == '#' {
        (None, indent)
    } else if n - k >= 2 && line[k] == '#' && line[k + 1] == '#' {
        let mut shown = indent;
        shown.push('#');
        push_range(&mut shown, line, k + 2, n);
        assert(rest.skip(2) =~= line@.subrange(k + 2, n as int));
        let all = shown.clone();
        (Some(shown), all)
    } else {
        let a = line.clone();
        let b = line.clone();
        (Some(a), b)
    }
}

/// Splits a block body into the lines that are shown and the whole program.
///
/// A line whose first non-blank characters are `# ` is compiled but not
/// displayed; `##` at the start of a line is an escaped `#`.
pub fn split_hidden(body: &Vec<char>) -> (r: (Vec<char>, Vec<char>))
    ensures
        (r.0@, r.1@) == split_hidden_spec(body@),
{
    let lines = split_range(body, 0, body.len(), '\n');
    assert(body@.subrange(0, body@.len() as int) =~= body@);
    let ghost ls = split_on(body@, '\n');
    let mut shown: Vec<Vec<char>> = Vec::new();
    let mut all: Vec<Vec<char>> = Vec::new();
    let mut k: usize = 0;
    while k < lines.len()
        invariant
            k <= lines.len(),
            views(lines@) == ls,
            views(shown@) == shown_lines(ls.take(k as int)),
            views(all@) == compiled_lines(ls.take(k as int)),
        decreases lines.len() - k,
    {
        assert(views(lines@)[k as int] == lines@[k as int]@);
        let (s, a) = hidden_line_exec(&lines[k]);
        assert(ls.take(k + 1).drop_last() =~= ls.take(k as int));
        assert(ls.take(k + 1).last() == ls[k as int]);
        let ghost old_all = views(all@);
        all.push(a);
        assert(views(all@) =~= old_all.push(hidden_line(ls[k as int]).1));
        assert(views(all@) =~= compiled_lines(ls.take(k + 1)));
        match s {
            Some(x) => {
                let ghost old_shown = views(shown@);
                shown.push(x);
                assert(views(shown@) =~= old_shown.push(hidden_line(ls[k as int]).0->0));
            },
            None => {},
        }
        k = k + 1;
    }
    assert(ls.take(lines.len() as int) =~= ls);
    (join_exec(&shown, '\n'), join_exec(&all, '\n'))
}

// ---------------------------------------------------------------------------
// Marker syntax

/// `[[x:` at `i`, where `x` is a lowercase letter, `*` or `?`.
pub open spec fn frame_open_at(s: Seq<char>, i: int) -> bool {
    0 <= i && i + 4 <= s.len() && s[i] == '[' && s[i + 1] == '[' && s[i + 3] == ':' && (('a'
        <= s[i + 2] <= 'z') || s[i + 2] == '*' || s[i + 2] == '?')
}

/// `:]]` at `i`.
pub open spec fn frame_close_at(s: Seq<char>, i: int) -> bool {
    0 <= i && i + 3 <= s.len() && s[i] == ':' && s[i + 1] == ']' && s[i + 2] == ']'
}

/// `'?x` or `'!x` at `i`, where `x` is an ASCII letter or `_`.
pub open spec fn sigil_at(s: Seq<char>, i: int) -> bool {
    0 <= i && i + 2 < s.len() && s[i] == '\'' && (s[i + 1] == '?' || s[i + 1] == '!') && (
    is_ascii_alpha(s[i + 2]) || s[i + 2] == '_')
}

pub open spec fn is_ident_char(c: char) -> bool {
    is_ascii_alnum(c) || c == '_'
}

/// The end of the run of identifier characters starting at `k`.
pub open spec fn ident_end(s: Seq<char>, k: int) -> int
    decreases s.len() - k,
{
    if 0 <= k < s.len() && is_ident_char(s[k]) {
        ident_end(s, k + 1)
    } else {
        k
    }
}

pub proof fn lemma_ident_end(s: Seq<char>, k: int)
    requires
        0 <= k <= s.len(),
    ensures
        k <= ident_end(s, k) <= s.len(),
    decreases s.len() - k,
{
    if k < s.len() && is_ident_char(s[k]) {
        lemma_ident_end(s, k + 1);
    }
}

fn frame_open_exec(s: &Vec<char>, i: usize) -> (r: bool)
    ensures
        r == frame_open_at(s@, i as int),
{
    i < s.len() && s.len() - i >= 4 && s[i] == '[' && s[i + 1] == '[' && s[i + 3] == ':' && (('a'
        <= s[i + 2] && s[i + 2] <= 'z') || s[i + 2] == '*' || s[i + 2] == '?')
}

fn frame_close_exec(s: &Vec<char>, i: usize) -> (r: bool)
    ensures
        r == frame_close_at(s@, i as int),
{
    i < s.len() && s.len() - i >= 3 && s[i] == ':' && s[i + 1] == ']' && s[i + 2] == ']'
}

fn sigil_exec(s: &Vec<char>, i: usize) -> (r: bool)
    ensures
        r == sigil_at(s@, i as int),
{
    i < s.len() && s.len() - i > 2 && s[i] == '\'' && (s[i + 1] == '?' || s[i + 1] == '!') && (
    ascii_alpha(s[i + 2]) || s[i + 2] == '_')
}

fn ident_end_exec(s: &Vec<char>, k: usize) -> (r: usize)
    requires
        k <= s.len(),
    ensures
        r as int == ident_end(s@, k as int),
        k <= r <= s.len(),
{
    let mut j = k;
    while j < s.len() && (ascii_alnum(s[j]) || s[j] == '_')
        invariant
            k <= j <= s.len(),
            ident_end(s@, j as int) == ident_end(s@, k as int),
        decreases s.len() - j,
    {
        j = j + 1;
    }
    j
}

// ---------------------------------------------------------------------------
// The program a block stands for

/// The Rust the text from `i` on stands for: frames erased, `'!a` turned
/// into `'_`, `'?a` into `'a`.
pub open spec fn program_from(s: Seq<char>, i: int) -> Seq<char>
    decreases s.len() - i,
{
    if i < 0 || i >= s.len() {
        Seq::empty()
    } else if frame_open_at(s, i) {
        program_from(s, i + 4)
    } else if frame_close_at(s, i) {
        program_from(s, i + 3)
    } else if sigil_at(s, i) {
        let j = ident_end(s, i + 2);
        proof {
            lemma_ident_end(s, i + 2);
        }
        let lifetime = if s[i + 1] == '!' {
            seq!['\'', '_']
        } else {
            seq!['\''] + s.subrange(i + 2, j)
        };
        lifetime + program_from(s, j)
    } else {
        seq![s[i]] + program_from(s, i + 1)
    }
}

pub open spec fn program_spec(s: Seq<char>) -> Seq<char> {
    program_from(s, 0)
}

/// The Rust a block stands for: markers taken out, and the notation in them
/// turned back into the code it annotates. A concrete origin is the lifetime
/// the compiler infers, so `'!a` becomes `'_`; a generic parameter is a
/// parameter, so `'?a` becomes `'a`.
pub fn program(all: &Vec<char>) -> (out: Vec<char>)
    ensures
        out@ == program_spec(all@),
{
    let mut out: Vec<char> = Vec::new();
    let mut i: usize = 0;
    let n = all.len();
    while i < n
        invariant
            n == all.len(),
            i <= n,
            out@ + program_from(all@, i as int) == program_from(all@, 0),
        decreases n - i,
    {
        let ghost old_out = out@;
        if frame_open_exec(all, i) {
            i = i + 4;
        } else if frame_close_exec(all, i) {
            i = i + 3;
        } else if sigil_exec(all, i) {
            let concrete = all[i + 1] == '!';
            let j = ident_end_exec(all, i + 2);
            out.push('\'');
            if concrete {
                out.push('_');
                assert(out@ =~= old_out + seq!['\'', '_']);
            } else {
                push_range(&mut out, all, i + 2, j);
                assert(out@ =~= old_out + (seq!['\''] + all@.subrange(i + 2, j as int)));
            }
            i = j;
        } else {
            out.push(all[i]);
            assert(out@ =~= old_out + seq![all@[i as int]]);
            i = i + 1;
        }
        assert(out@ + program_from(all@, i as int) =~= program_from(all@, 0));
    }
    assert(out@ + program_from(all@, i as int) =~= out@);
    out
}

// ---------------------------------------------------------------------------
// Stripping the markers

/// Strips the markers from the text at `i` on, given the code, spans and
/// open frames so far.
pub open spec fn strip_from(
    s: Seq<char>,
    i: int,
    code: Seq<char>,
    spans: Seq<Span>,
    open: Seq<(usize, Class)>,
) -> Result<(Seq<char>, Seq<Span>), ProblemView>
    decreases s.len() - i,
{
    if i < 0 || i >= s.len() {
        if open.len() == 0 {
            Ok((code, spans))
        } else {
            Err(ProblemView::UnclosedMarker)
        }
    } else if frame_open_at(s, i) {
        strip_from(s, i + 4, code, spans, open.push((code.len() as usize, frame_class_spec(s[i + 2]))))
    } else if sigil_at(s, i) {
        let j = ident_end(s, i + 2);
        proof {
            lemma_ident_end(s, i + 2);
        }
        let key = if s[i + 1] == '?' {
            '?'
        } else {
            s[i + 2]
        };
        let newcode = code.push('\'') + s.subrange(i + 2, j);
        let span = Span {
            start: code.len() as usize,
            end: newcode.len() as usize,
            class: frame_class_spec(key),
            is_marker: true,
        };
        strip_from(s, j, newcode, spans.push(span), open)
    } else if frame_close_at(s, i) {
        if open.len() == 0 {
            Err(ProblemView::UnmatchedClose)
        } else {
            let span = Span {
                start: open.last().0,
                end: code.len() as usize,
                class: open.last().1,
                is_marker: true,
            };
            strip_from(s, i + 3, code, spans.push(span), open.drop_last())
        }
    } else {
        strip_from(s, i + 1, code.push(s[i]), spans, open)
    }
}

/// The code `src` reads as once its markers are stripped, and the boxes they
/// ask for, in that code's character offsets.
pub open spec fn strip_spec(src: Seq<char>) -> Result<(Seq<char>, Seq<Span>), ProblemView> {
    strip_from(src, 0, Seq::empty(), Seq::empty(), Seq::empty())
}

/// Strips the markers, returning the code as it should read and the spans
/// they asked for.
pub fn strip(src: &Vec<char>) -> (r: Result<(Vec<char>, Vec<Span>), BlockProblem>)
    ensures
        match r {
            Ok((code, spans)) => strip_spec(src@) == Ok::<(Seq<char>, Seq<Span>), ProblemView>(
                (code@, spans@),
            ),
            Err(e) => strip_spec(src@) == Err::<(Seq<char>, Seq<Span>), ProblemView>(e@),
        },
{
    let mut code: Vec<char> = Vec::new();
    let mut spans: Vec<Span> = Vec::new();
    let mut open: Vec<(usize, Class)> = Vec::new();
    let n = src.len();
    let mut i: usize = 0;
    while i < n
        invariant
            n == src.len(),
            i <= n,
            strip_from(src@, i as int, code@, spans@, open@) == strip_spec(src@),
        decreases n - i,
    {
        if frame_open_exec(src, i) {
            let class = frame_class(src[i + 2]);
            open.push((code.len(), class));
            i = i + 4;
        } else if sigil_exec(src, i) {
            let start = code.len();
            let key = if src[i + 1] == '?' {
                '?'
            } else {
                src[i + 2]
            };
            let j = ident_end_exec(src, i + 2);
            let ghost old_code = code@;
            code.push('\'');
            push_range(&mut code, src, i + 2, j);
            assert(code@ =~= old_code.push('\'') + src@.subrange(i + 2, j as int));
            let class = frame_class(key);
            spans.push(Span { start, end: code.len(), class, is_marker: true });
            i = j;
        } else if frame_close_exec(src, i) {
            match open.pop() {
                Some((start, class)) => {
                    spans.push(Span { start, end: code.len(), class, is_marker: true });
                    i = i + 3;
                },
                None => {
                    return Err(BlockProblem::UnmatchedClose);
                },
            }
        } else {
            code.push(src[i]);
            i = i + 1;
        }
    }
    if open.len() == 0 {
        Ok((code, spans))
    } else {
        Err(BlockProblem::UnclosedMarker)
    }
}

// ---------------------------------------------------------------------------
// What the markers promise

/// Whether `s` holds no marker at all: no frame opening or closing and no
/// sigil.
pub open spec fn marker_free(s: Seq<char>) -> bool {
    forall|i: int| 0 <= i < s.len() ==> !#[trigger] marker_at(s, i)
}

/// Whether a marker starts at `i`.
pub open spec fn marker_at(s: Seq<char>, i: int) -> bool {
    frame_open_at(s, i) || frame_close_at(s, i) || sigil_at(s, i)
}

proof fn lemma_strip_marker_free_from(s: Seq<char>, i: int)
    requires
        marker_free(s),
        0 <= i <= s.len(),
    ensures
        strip_from(s, i, s.take(i), Seq::empty(), Seq::empty()) == Ok::<
            (Seq<char>, Seq<Span>),
            ProblemView,
        >((s, Seq::empty())),
    decreases s.len() - i,
{
    if i < s.len() {
        assert(!marker_at(s, i));
        assert(s.take(i).push(s[i]) =~= s.take(i + 1));
        lemma_strip_marker_free_from(s, i + 1);
    } else {
        assert(s.take(i) =~= s);
    }
}

proof fn lemma_program_marker_free_from(s: Seq<char>, i: int)
    requires
        marker_free(s),
        0 <= i <= s.len(),
    ensures
        program_from(s, i) == s.skip(i),
    decreases s.len() - i,
{
    if i < s.len() {
        assert(!marker_at(s, i));
        lemma_program_marker_free_from(s, i + 1);
        assert(seq![s[i]] + s.skip(i + 1) =~= s.skip(i));
    } else {
        assert(s.skip(i) =~= Seq::<char>::empty());
    }
}

/// No box appears without a marker: text with no marker in it reads as
/// itself, with no boxes, and is compiled as itself.
pub proof fn lemma_no_box_without_a_marker(s: Seq<char>)
    requires
        marker_free(s),
    ensures
        strip_spec(s) == Ok::<(Seq<char>, Seq<Span>), ProblemView>((s, Seq::empty())),
        program_spec(s) == s,
{
    assert(s.take(0) =~= Seq::<char>::empty());
    lemma_strip_marker_free_from(s, 0);
    lemma_program_marker_free_from(s, 0);
    assert(s.skip(0) =~= s);
}

proof fn lemma_ident_end_shift(s: Seq<char>, k: int, i: int)
    requires
        0 <= k <= i <= s.len(),
    ensures
        ident_end(s.skip(k), i - k) == ident_end(s, i) - k,
    decreases s.len() - i,
{
    if i < s.len() {
        assert(s.skip(k)[i - k] == s[i]);
        lemma_ident_end_shift(s, k, i + 1);
    }
}

/// Reading from index `i` depends on nothing before `i`.
proof fn lemma_strip_shift(
    s: Seq<char>,
    k: int,
    i: int,
    code: Seq<char>,
    spans: Seq<Span>,
    open: Seq<(usize, Class)>,
)
    requires
        0 <= k <= i <= s.len(),
    ensures
        strip_from(s, i, code, spans, open) == strip_from(s.skip(k), i - k, code, spans, open),
    decreases s.len() - i,
{
    let t = s.skip(k);
    if i < s.len() {
        assert(frame_open_at(s, i) == frame_open_at(t, i - k));
        assert(frame_close_at(s, i) == frame_close_at(t, i - k));
        assert(sigil_at(s, i) == sigil_at(t, i - k));
        if frame_open_at(s, i) {
            lemma_strip_shift(s, k, i + 4, code, spans, open.push(
                (code.len() as usize, frame_class_spec(s[i + 2])),
            ));
        } else if sigil_at(s, i) {
            lemma_ident_end(s, i + 2);
            lemma_ident_end_shift(s, k, i + 2);
            let j = ident_end(s, i + 2);
            assert(t.subrange(i - k + 2, j - k) =~= s.subrange(i + 2, j));
            let key = if s[i + 1] == '?' {
                '?'
            } else {
                s[i + 2]
            };
            let newcode = code.push('\'') + s.subrange(i + 2, j);
            let span = Span {
                start: code.len() as usize,
                end: newcode.len() as usize,
                class: frame_class_spec(key),
                is_marker: true,
            };
            lemma_strip_shift(s, k, j, newcode, spans.push(span), open);
        } else if frame_close_at(s, i) {
            if open.len() > 0 {
                let span = Span {
                    start: open.last().0,
                    end: code.len() as usize,
                    class: open.last().1,
                    is_marker: true,
                };
                lemma_strip_shift(s, k, i + 3, code, spans.push(span), open.drop_last());
            }
        } else {
            lemma_strip_shift(s, k, i + 1, code.push(s[i]), spans, open);
        }
    }
}

/// Identifier characters are read as they are.
proof fn lemma_strip_plain_run(
    s: Seq<char>,
    lo: int,
    hi: int,
    m: int,
    code: Seq<char>,
    spans: Seq<Span>,
    open: Seq<(usize, Class)>,
)
    requires
        0 <= lo <= lo + m <= hi <= s.len(),
        forall|d: int| lo <= d < hi ==> is_ident_char(#[trigger] s[d]),
    ensures
        strip_from(s, lo + m, code + s.subrange(lo, lo + m), spans, open) == strip_from(
            s,
            hi,
            code + s.subrange(lo, hi),
            spans,
            open,
        ),
    decreases hi - lo - m,
{
    if lo + m < hi {
        let i = lo + m;
        assert(is_ident_char(s[i]));
        assert(!frame_open_at(s, i) && !frame_close_at(s, i) && !sigil_at(s, i));
        assert((code + s.subrange(lo, i)).push(s[i]) =~= code + s.subrange(lo, i + 1));
        lemma_strip_plain_run(s, lo, hi, m + 1, code, spans, open);
    }
}

proof fn lemma_ident_end_over(s: Seq<char>, lo: int, hi: int, m: int)
    requires
        0 <= lo <= lo + m <= hi <= s.len(),
        forall|d: int| lo <= d < hi ==> is_ident_char(#[trigger] s[d]),
        hi == s.len() || !is_ident_char(s[hi]),
    ensures
        ident_end(s, lo + m) == hi,
    decreases hi - lo - m,
{
    if lo + m < hi {
        assert(is_ident_char(s[lo + m]));
        lemma_ident_end_over(s, lo, hi, m + 1);
    }
}

/// The sigils are sugar. From any point of reading, a sigil `'!` before a
/// name reads exactly as the name framed in the box of its first letter,
/// `[[x:'name:]]`, and `'?` before a name as `[[?:'name:]]`, provided what
/// follows does not continue the name.
pub proof fn lemma_sigils_are_sugar(
    mark: char,
    name: Seq<char>,
    rest: Seq<char>,
    code: Seq<char>,
    spans: Seq<Span>,
    open: Seq<(usize, Class)>,
)
    requires
        name.len() > 0,
        forall|k: int| 0 <= k < name.len() ==> is_ident_char(#[trigger] name[k]),
        rest.len() == 0 || !is_ident_char(rest[0]),
        mark == '!' ==> 'a' <= name[0] <= 'z',
        mark == '?' ==> is_ascii_alpha(name[0]) || name[0] == '_',
        mark == '!' || mark == '?',
    ensures
        strip_from(seq!['\'', mark] + name + rest, 0, code, spans, open) == strip_from(
            seq!['[', '[', if mark == '!' {
                name[0]
            } else {
                '?'
            }, ':', '\''] + name + seq![':', ']', ']'] + rest,
            0,
            code,
            spans,
            open,
        ),
{
    let key = if mark == '!' {
        name[0]
    } else {
        '?'
    };
    let n = name.len() as int;
    let class = frame_class_spec(key);
    let newcode = code.push('\'') + name;
    // The sigil.
    let t1 = seq!['\'', mark] + name + rest;
    assert(t1[0] == '\'' && t1[1] == mark && t1[2] == name[0]);
    assert(sigil_at(t1, 0));
    assert forall|d: int| 2 <= d < 2 + n implies is_ident_char(#[trigger] t1[d]) by {
        assert(t1[d] == name[d - 2]);
    }
    if 2 + n < t1.len() {
        assert(t1[2 + n] == rest[0]);
    }
    lemma_ident_end_over(t1, 2, 2 + n, 0);
    assert(t1.subrange(2, 2 + n) =~= name);
    let span = Span {
        start: code.len() as usize,
        end: newcode.len() as usize,
        class: class,
        is_marker: true,
    };
    assert(strip_from(t1, 0, code, spans, open) == strip_from(t1, 2 + n, newcode, spans.push(span), open));
    lemma_strip_shift(t1, 2 + n, 2 + n, newcode, spans.push(span), open);
    assert(t1.skip(2 + n) =~= rest);
    // The frame.
    let t2 = seq!['[', '[', key, ':', '\''] + name + seq![':', ']', ']'] + rest;
    assert(t2[0] == '[' && t2[1] == '[' && t2[2] == key && t2[3] == ':' && t2[4] == '\'');
    assert(frame_open_at(t2, 0));
    let open2 = open.push((code.len() as usize, class));
    assert(t2[5] == name[0]);
    assert(!frame_open_at(t2, 4) && !sigil_at(t2, 4) && !frame_close_at(t2, 4));
    assert(strip_from(t2, 4, code, spans, open2) == strip_from(t2, 5, code.push('\''), spans, open2));
    assert forall|d: int| 5 <= d < 5 + n implies is_ident_char(#[trigger] t2[d]) by {
        assert(t2[d] == name[d - 5]);
    }
    assert(t2.subrange(5, 5) =~= Seq::<char>::empty());
    assert(code.push('\'') + t2.subrange(5, 5) =~= code.push('\''));
    lemma_strip_plain_run(t2, 5, 5 + n, 0, code.push('\''), spans, open2);
    assert(t2.subrange(5, 5 + n) =~= name);
    assert(t2[5 + n] == ':' && t2[6 + n] == ']' && t2[7 + n] == ']');
    assert(!frame_open_at(t2, 5 + n) && !sigil_at(t2, 5 + n) && frame_close_at(t2, 5 + n));
    assert(open2.drop_last() =~= open);
    assert(strip_from(t2, 5 + n, newcode, spans, open2) == strip_from(t2, 8 + n, newcode, spans.push(span), open));
    lemma_strip_shift(t2, 8 + n, 8 + n, newcode, spans.push(span), open);
    assert(t2.skip(8 + n) =~= rest);
}

proof fn lemma_hidden_line_one_line(l: Seq<char>)
    requires
        forall|j: int| 0 <= j < l.len() ==> l[j] != '\n',
    ensures
        forall|j: int|
            0 <= j < hidden_line(l).1.len() ==> #[trigger] hidden_line(l).1[j] != '\n',
        hidden_line(l).0 matches Some(x) ==> forall|j: int|
            0 <= j < x.len() ==> #[trigger] x[j] != '\n',
{
    lemma_trim_start_len(l);
    let rest = trim_start(l);
    let k = l.len() - rest.len();
    let indent = l.take(k);
    assert forall|j: int| 0 <= j < rest.len() implies rest[j] != '\n' by {
        assert(rest[j] == l[k + j]);
    }
    let a = hidden_line(l).1;
    assert forall|j: int| 0 <= j < a.len() implies #[trigger] a[j] != '\n' by {
        if rest.len() >= 2 && rest[0] == '#' && (rest[1] == ' ' || rest[1] == '#') {
            let t = if rest[1] == ' ' {
                indent
            } else {
                indent.push('#')
            };
            assert(a == t + rest.skip(2));
            if j >= t.len() {
                assert(a[j] == rest[j - t.len() + 2]);
            } else if j < indent.len() {
                assert(a[j] == l[j]);
            }
        } else if rest.len() == 1 && rest[0] == '#' {
            assert(a[j] == l[j]);
        } else {
            assert(a[j] == l[j]);
        }
    }
}

/// Hidden lines are still compiled: the program a block stands for has a
/// line for every line of the block, in order, and what the slide shows
/// leaves lines out without adding any.
pub proof fn lemma_hidden_lines_are_compiled(body: Seq<char>)
    ensures
        split_on(split_hidden_spec(body).1, '\n').len() == split_on(body, '\n').len(),
        shown_lines(split_on(body, '\n')).len() <= split_on(body, '\n').len(),
{
    let ls = split_on(body, '\n');
    crate::lines::lemma_pieces_lack_sep(body, '\n');
    crate::lines::lemma_split_on_nonempty(body, '\n');
    let cs = compiled_lines(ls);
    assert forall|i: int, j: int| 0 <= i < cs.len() && 0 <= j < cs[i].len() implies #[trigger] cs[i][j] != '\n' by {
        assert forall|m: int| 0 <= m < ls[i].len() implies ls[i][m] != '\n' by {}
        lemma_hidden_line_one_line(ls[i]);
    }
    crate::lines::lemma_split_join(cs, '\n');
    lemma_shown_lines_len(ls);
}

proof fn lemma_shown_lines_len(ls: Seq<Seq<char>>)
    ensures
        shown_lines(ls).len() <= ls.len(),
    decreases ls.len(),
{
    if ls.len() > 0 {
        lemma_shown_lines_len(ls.drop_last());
    }
}

/// Whether two boxes nest: they are apart, or one lies within the other.
pub open spec fn boxes_nest(a: Span, b: Span) -> bool {
    a.end <= b.start || b.end <= a.start || (a.start <= b.start && b.end <= a.end) || (b.start
        <= a.start && a.end <= b.end)
}

/// What reading keeps true of the boxes made so far and the frames still
/// open: boxes lie within the code and nest, frames open in order, and a
/// box made since a frame opened lies after its start.
pub open spec fn reading_state_ok(code: Seq<char>, spans: Seq<Span>, open: Seq<(usize, Class)>) -> bool {
    &&& forall|i: int| 0 <= i < spans.len() ==> #[trigger] spans[i].start <= spans[i].end <= code.len()
    &&& forall|i: int, j: int| 0 <= i < spans.len() && 0 <= j < spans.len() ==> boxes_nest(
        #[trigger] spans[i],
        #[trigger] spans[j],
    )
    &&& forall|k: int| 0 <= k < open.len() ==> #[trigger] open[k].0 <= code.len()
    &&& forall|k: int, m: int| 0 <= k < m < open.len() ==> #[trigger] open[k].0 <= #[trigger] open[m].0
    &&& forall|i: int, k: int|
        0 <= i < spans.len() && 0 <= k < open.len() ==> #[trigger] spans[i].end <= #[trigger] open[k].0
            || open[k].0 <= spans[i].start
}

proof fn lemma_reading_keeps_boxes_nested(
    s: Seq<char>,
    i: int,
    code: Seq<char>,
    spans: Seq<Span>,
    open: Seq<(usize, Class)>,
)
    requires
        0 <= i <= s.len() <= usize::MAX,
        code.len() <= i,
        reading_state_ok(code, spans, open),
    ensures
        strip_from(s, i, code, spans, open) matches Ok((c, sp)) ==> reading_state_ok(
            c,
            sp,
            Seq::empty(),
        ),
    decreases s.len() - i,
{
    if i < s.len() {
        if frame_open_at(s, i) {
            let open2 = open.push((code.len() as usize, frame_class_spec(s[i + 2])));
            assert(reading_state_ok(code, spans, open2)) by {
                assert forall|a: int, k: int|
                    0 <= a < spans.len() && 0 <= k < open2.len() implies #[trigger] spans[a].end
                    <= #[trigger] open2[k].0 || open2[k].0 <= spans[a].start by {
                    if k < open.len() {
                        assert(open2[k] == open[k]);
                    }
                }
                assert forall|k: int, m: int| 0 <= k < m < open2.len() implies #[trigger] open2[k].0
                    <= #[trigger] open2[m].0 by {
                    assert(open2[k] == open[k]);
                    if m < open.len() {
                        assert(open2[m] == open[m]);
                    }
                }
                assert forall|k: int| 0 <= k < open2.len() implies #[trigger] open2[k].0
                    <= code.len() by {
                    if k < open.len() {
                        assert(open2[k] == open[k]);
                    }
                }
            }
            lemma_reading_keeps_boxes_nested(s, i + 4, code, spans, open2);
        } else if sigil_at(s, i) {
            lemma_ident_end(s, i + 2);
            let j = ident_end(s, i + 2);
            let key = if s[i + 1] == '?' {
                '?'
            } else {
                s[i + 2]
            };
            let newcode = code.push('\'') + s.subrange(i + 2, j);
            let span = Span {
                start: code.len() as usize,
                end: newcode.len() as usize,
                class: frame_class_spec(key),
                is_marker: true,
            };
            let spans2 = spans.push(span);
            assert(reading_state_ok(newcode, spans2, open)) by {
                assert forall|a: int| 0 <= a < spans2.len() implies #[trigger] spans2[a].start
                    <= spans2[a].end <= newcode.len() by {
                    if a < spans.len() {
                        assert(spans2[a] == spans[a]);
                    }
                }
                assert forall|a: int, b: int| 0 <= a < spans2.len() && 0 <= b < spans2.len() implies boxes_nest(
                    #[trigger] spans2[a],
                    #[trigger] spans2[b],
                ) by {
                    if a < spans.len() {
                        assert(spans2[a] == spans[a]);
                    }
                    if b < spans.len() {
                        assert(spans2[b] == spans[b]);
                    }
                }
                assert forall|a: int, k: int|
                    0 <= a < spans2.len() && 0 <= k < open.len() implies #[trigger] spans2[a].end
                    <= #[trigger] open[k].0 || open[k].0 <= spans2[a].start by {
                    if a < spans.len() {
                        assert(spans2[a] == spans[a]);
                    }
                }
            }
            lemma_reading_keeps_boxes_nested(s, j, newcode, spans2, open);
        } else if frame_close_at(s, i) {
            if open.len() > 0 {
                let span = Span {
                    start: open.last().0,
                    end: code.len() as usize,
                    class: open.last().1,
                    is_marker: true,
                };
                let spans2 = spans.push(span);
                let open2 = open.drop_last();
                assert(reading_state_ok(code, spans2, open2)) by {
                    assert(open.last() == open[open.len() - 1]);
                    assert forall|a: int| 0 <= a < spans2.len() implies #[trigger] spans2[a].start
                        <= spans2[a].end <= code.len() by {
                        if a < spans.len() {
                            assert(spans2[a] == spans[a]);
                        }
                    }
                    assert forall|a: int, b: int| 0 <= a < spans2.len() && 0 <= b < spans2.len() implies boxes_nest(
                        #[trigger] spans2[a],
                        #[trigger] spans2[b],
                    ) by {
                        if a < spans.len() {
                            assert(spans2[a] == spans[a]);
                            assert(spans[a].end <= open[open.len() - 1].0 || open[open.len()
                                - 1].0 <= spans[a].start);
                        }
                        if b < spans.len() {
                            assert(spans2[b] == spans[b]);
                            assert(spans[b].end <= open[open.len() - 1].0 || open[open.len()
                                - 1].0 <= spans[b].start);
                        }
                    }
                    assert forall|k: int| 0 <= k < open2.len() implies #[trigger] open2[k].0
                        <= code.len() by {
                        assert(open2[k] == open[k]);
                    }
                    assert forall|k: int, m: int| 0 <= k < m < open2.len() implies #[trigger] open2[k].0
                        <= #[trigger] open2[m].0 by {
                        assert(open2[k] == open[k]);
                        assert(open2[m] == open[m]);
                    }
                    assert forall|a: int, k: int|
                        0 <= a < spans2.len() && 0 <= k < open2.len() implies #[trigger] spans2[a].end
                        <= #[trigger] open2[k].0 || open2[k].0 <= spans2[a].start by {
                        assert(open2[k] == open[k]);
                        if a < spans.len() {
                            assert(spans2[a] == spans[a]);
                        } else {
                            assert(open[k].0 <= open[open.len() - 1].0);
                        }
                    }
                }
                lemma_reading_keeps_boxes_nested(s, i + 3, code, spans2, open2);
            }
        } else {
            lemma_reading_keeps_boxes_nested(s, i + 1, code.push(s[i]), spans, open);
        }
    } else {
        if open.len() == 0 {
            assert(open =~= Seq::<(usize, Class)>::empty());
        }
    }
}

/// Boxes nest: every box a block asks for lies within its code, and any two
/// are apart or one lies within the other, however frames and sigils are
/// combined.
pub proof fn lemma_boxes_nest(src: Seq<char>)
    requires
        src.len() <= usize::MAX,
    ensures
        strip_spec(src) matches Ok((code, spans)) ==> (forall|i: int|
            0 <= i < spans.len() ==> #[trigger] spans[i].start <= spans[i].end <= code.len())
            && forall|i: int, j: int|
            0 <= i < spans.len() && 0 <= j < spans.len() ==> boxes_nest(
                #[trigger] spans[i],
                #[trigger] spans[j],
            ),
{
    lemma_reading_keeps_boxes_nested(src, 0, Seq::empty(), Seq::empty(), Seq::empty());
}

} // verus!

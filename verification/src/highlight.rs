//! highlight.css classes for the tokens of a block's code.
//!
//! The lexer is rustc's own (`ra_ap_rustc_lexer`), so comments, strings,
//! char literals, raw strings and lifetimes are delimited exactly as rustc
//! delimits them. Which identifiers are keywords, types or call sites stays
//! the heuristic highlight.js applies.

use vstd::prelude::*;
use crate::markers::{Class, Span};
use crate::text::{range_eq_str, string_of, utf8_width, utf8_width_exec};
use ra_ap_rustc_lexer::{FrontmatterAllowed, LiteralKind, TokenKind};

verus! {

/// The kinds of lexer token the highlighter tells apart.
#[derive(Clone, Copy, PartialEq, Eq, Debug, Structural)]
pub enum Tok {
    LineComment,
    BlockComment,
    Whitespace,
    Ident,
    RawIdent,
    Lifetime,
    RawLifetime,
    IntLiteral,
    FloatLiteral,
    /// Every other literal: strings, chars, bytes and their raw forms.
    OtherLiteral,
    Bang,
    OpenParen,
    Other,
}

/// What `ra_ap_rustc_lexer::tokenize` yields for a text: each token's length
/// in UTF-8 bytes and its kind.
pub uninterp spec fn rust_tokens(code: Seq<char>) -> Seq<(u32, Tok)>;

/// `char::is_uppercase`: whether `c` has Unicode's `Uppercase` property.
pub uninterp spec fn is_uppercase(c: char) -> bool;

/// Calls `ra_ap_rustc_lexer::tokenize` on `code`, frontmatter disallowed,
/// and returns each token's `len` and kind. The contract only names the
/// result: what the lexer yields for a given text is not restated here.
#[verifier::external_body]
fn lex(code: &str) -> (r: Vec<(u32, Tok)>)
    ensures
        r@ == rust_tokens(code@),
{
    ra_ap_rustc_lexer::tokenize(code, FrontmatterAllowed::No).map(|t| (t.len, match t.kind {
        TokenKind::LineComment { .. } => Tok::LineComment,
        TokenKind::BlockComment { .. } => Tok::BlockComment,
        TokenKind::Whitespace => Tok::Whitespace,
        TokenKind::Ident => Tok::Ident,
        TokenKind::RawIdent => Tok::RawIdent,
        TokenKind::Lifetime { .. } => Tok::Lifetime,
        TokenKind::RawLifetime => Tok::RawLifetime,
        TokenKind::Literal { kind: LiteralKind::Int { .. }, .. } => Tok::IntLiteral,
        TokenKind::Literal { kind: LiteralKind::Float { .. }, .. } => Tok::FloatLiteral,
        TokenKind::Literal { .. } => Tok::OtherLiteral,
        TokenKind::Bang => Tok::Bang,
        TokenKind::OpenParen => Tok::OpenParen,
        _ => Tok::Other,
    })).collect()
}

/// Calls `char::is_uppercase`.
#[verifier::external_body]
fn uppercase(c: char) -> (r: bool)
    ensures
        r == is_uppercase(c),
{
    c.is_uppercase()
}

/// The character offset reached by consuming `nbytes` bytes of `code` from
/// character `pos`, stopping at the end of the code.
pub open spec fn advance(code: Seq<char>, pos: int, nbytes: int) -> int
    decreases code.len() - pos,
{
    if pos < 0 || pos >= code.len() || nbytes <= 0 {
        pos
    } else {
        advance(code, pos + 1, nbytes - utf8_width(code[pos]))
    }
}

proof fn lemma_advance(code: Seq<char>, pos: int, nbytes: int)
    requires
        0 <= pos <= code.len(),
    ensures
        pos <= advance(code, pos, nbytes) <= code.len(),
    decreases code.len() - pos,
{
    if pos < code.len() && nbytes > 0 {
        lemma_advance(code, pos + 1, nbytes - utf8_width(code[pos]));
    }
}

/// The lexer's tokens from the `k`th on, as character ranges of `code`
/// starting at `pos`.
pub open spec fn ranges_from(code: Seq<char>, toks: Seq<(u32, Tok)>, k: int, pos: int) -> Seq<
    (usize, usize, Tok),
>
    decreases toks.len() - k,
{
    if k < 0 || k >= toks.len() {
        Seq::empty()
    } else {
        let e = advance(code, pos, toks[k].0 as int);
        seq![(pos as usize, e as usize, toks[k].1)] + ranges_from(code, toks, k + 1, e)
    }
}

pub open spec fn token_ranges(code: Seq<char>, toks: Seq<(u32, Tok)>) -> Seq<(usize, usize, Tok)> {
    ranges_from(code, toks, 0, 0)
}

fn token_ranges_exec(code: &Vec<char>, toks: &Vec<(u32, Tok)>) -> (r: Vec<(usize, usize, Tok)>)
    ensures
        r@ == token_ranges(code@, toks@),
        ranges_within(r@, code@.len()),
{
    let mut out: Vec<(usize, usize, Tok)> = Vec::new();
    let mut pos: usize = 0;
    let mut k: usize = 0;
    while k < toks.len()
        invariant
            k <= toks.len(),
            pos <= code.len(),
            out@ + ranges_from(code@, toks@, k as int, pos as int) == token_ranges(code@, toks@),
            ranges_within(out@, code@.len()),
        decreases toks.len() - k,
    {
        let (len, kind) = toks[k];
        let start = pos;
        let mut left: i64 = len as i64;
        while pos < code.len() && left > 0
            invariant
                start <= pos <= code.len(),
                left <= u32::MAX,
                advance(code@, pos as int, left as int) == advance(code@, start as int, len as int),
            decreases code.len() - pos,
        {
            left = left - utf8_width_exec(code[pos]) as i64;
            pos = pos + 1;
        }
        proof {
            lemma_advance(code@, start as int, len as int);
        }
        let ghost old_out = out@;
        out.push((start, pos, kind));
        assert(out@ + ranges_from(code@, toks@, k + 1, pos as int) =~= old_out + ranges_from(
            code@,
            toks@,
            k as int,
            start as int,
        ));
        k = k + 1;
    }
    assert(out@ + ranges_from(code@, toks@, k as int, pos as int) =~= out@);
    out
}

/// Every range lies within a code of length `len`.
pub open spec fn ranges_within(tr: Seq<(usize, usize, Tok)>, len: nat) -> bool {
    forall|i: int| 0 <= i < tr.len() ==> #[trigger] tr[i].0 <= tr[i].1 <= len
}

/// `code[a..b]`, cut to the code's end and empty when the range is.
pub open spec fn seg(code: Seq<char>, a: int, b: int) -> Seq<char> {
    let e = if b <= code.len() {
        b
    } else {
        code.len() as int
    };
    if 0 <= a < e {
        code.subrange(a, e)
    } else {
        Seq::empty()
    }
}

/// Words highlight.css paints as keywords.
pub open spec fn is_keyword(w: Seq<char>) -> bool {
    w == "let"@ || w == "mut"@ || w == "fn"@ || w == "struct"@ || w == "impl"@ || w == "if"@ || w
        == "else"@ || w == "return"@ || w == "move"@ || w == "for"@ || w == "in"@ || w == "while"@
        || w == "loop"@ || w == "match"@ || w == "pub"@ || w == "use"@ || w == "as"@ || w
        == "ref"@ || w == "const"@ || w == "static"@ || w == "enum"@ || w == "trait"@ || w
        == "where"@ || w == "break"@ || w == "continue"@
}

/// Primitives, which highlight.css paints as types.
pub open spec fn is_prim(w: Seq<char>) -> bool {
    w == "i8"@ || w == "i16"@ || w == "i32"@ || w == "i64"@ || w == "i128"@ || w == "u8"@ || w
        == "u16"@ || w == "u32"@ || w == "u64"@ || w == "u128"@ || w == "usize"@ || w == "isize"@
        || w == "f32"@ || w == "f64"@ || w == "bool"@ || w == "char"@ || w == "str"@
}

fn keyword_exec(s: &Vec<char>, a: usize, b: usize) -> (r: bool)
    requires
        a <= b <= s.len(),
    ensures
        r == is_keyword(s@.subrange(a as int, b as int)),
{
    range_eq_str(s, a, b, "let") || range_eq_str(s, a, b, "mut") || range_eq_str(s, a, b, "fn")
        || range_eq_str(s, a, b, "struct") || range_eq_str(s, a, b, "impl") || range_eq_str(
        s,
        a,
        b,
        "if",
    ) || range_eq_str(s, a, b, "else") || range_eq_str(s, a, b, "return") || range_eq_str(
        s,
        a,
        b,
        "move",
    ) || range_eq_str(s, a, b, "for") || range_eq_str(s, a, b, "in") || range_eq_str(
        s,
        a,
        b,
        "while",
    ) || range_eq_str(s, a, b, "loop") || range_eq_str(s, a, b, "match") || range_eq_str(
        s,
        a,
        b,
        "pub",
    ) || range_eq_str(s, a, b, "use") || range_eq_str(s, a, b, "as") || range_eq_str(
        s,
        a,
        b,
        "ref",
    ) || range_eq_str(s, a, b, "const") || range_eq_str(s, a, b, "static") || range_eq_str(
        s,
        a,
        b,
        "enum",
    ) || range_eq_str(s, a, b, "trait") || range_eq_str(s, a, b, "where") || range_eq_str(
        s,
        a,
        b,
        "break",
    ) || range_eq_str(s, a, b, "continue")
}

fn prim_exec(s: &Vec<char>, a: usize, b: usize) -> (r: bool)
    requires
        a <= b <= s.len(),
    ensures
        r == is_prim(s@.subrange(a as int, b as int)),
{
    range_eq_str(s, a, b, "i8") || range_eq_str(s, a, b, "i16") || range_eq_str(s, a, b, "i32")
        || range_eq_str(s, a, b, "i64") || range_eq_str(s, a, b, "i128") || range_eq_str(
        s,
        a,
        b,
        "u8",
    ) || range_eq_str(s, a, b, "u16") || range_eq_str(s, a, b, "u32") || range_eq_str(
        s,
        a,
        b,
        "u64",
    ) || range_eq_str(s, a, b, "u128") || range_eq_str(s, a, b, "usize") || range_eq_str(
        s,
        a,
        b,
        "isize",
    ) || range_eq_str(s, a, b, "f32") || range_eq_str(s, a, b, "f64") || range_eq_str(
        s,
        a,
        b,
        "bool",
    ) || range_eq_str(s, a, b, "char") || range_eq_str(s, a, b, "str")
}

/// The first token after the `n`th that is not whitespace.
pub open spec fn next_sig(tr: Seq<(usize, usize, Tok)>, m: int) -> Option<int>
    decreases tr.len() - m,
{
    if m < 0 || m >= tr.len() {
        None
    } else if tr[m].2 != Tok::Whitespace {
        Some(m)
    } else {
        next_sig(tr, m + 1)
    }
}

/// The last token before index `m` that is not whitespace.
pub open spec fn prev_sig(tr: Seq<(usize, usize, Tok)>, m: int) -> Option<int>
    decreases m,
{
    if m <= 0 || m > tr.len() {
        None
    } else if tr[m - 1].2 != Tok::Whitespace {
        Some(m - 1)
    } else {
        prev_sig(tr, m - 1)
    }
}

fn next_sig_exec(tr: &Vec<(usize, usize, Tok)>, m: usize) -> (r: Option<usize>)
    ensures
        match r {
            Some(j) => next_sig(tr@, m as int) == Some(j as int) && j < tr.len(),
            None => next_sig(tr@, m as int) is None,
        },
{
    let mut j = m;
    while j < tr.len()
        invariant
            m <= j,
            next_sig(tr@, j as int) == next_sig(tr@, m as int),
        decreases tr.len() - j,
    {
        if tr[j].2 != Tok::Whitespace {
            return Some(j);
        }
        j = j + 1;
    }
    None
}

fn prev_sig_exec(tr: &Vec<(usize, usize, Tok)>, m: usize) -> (r: Option<usize>)
    requires
        m <= tr.len(),
    ensures
        match r {
            Some(j) => prev_sig(tr@, m as int) == Some(j as int) && j < tr.len(),
            None => prev_sig(tr@, m as int) is None,
        },
{
    let mut j = m;
    while j > 0
        invariant
            j <= m <= tr.len(),
            prev_sig(tr@, j as int) == prev_sig(tr@, m as int),
        decreases j,
    {
        if tr[j - 1].2 != Tok::Whitespace {
            return Some(j - 1);
        }
        j = j - 1;
    }
    None
}

/// The span the `n`th token asks for, if any.
pub open spec fn token_span(code: Seq<char>, tr: Seq<(usize, usize, Tok)>, n: int) -> Option<Span> {
    let (a, b, k) = tr[n];
    let text = seg(code, a as int, b as int);
    let plain = |c: Class| Some(Span { start: a, end: b, class: c, is_marker: false });
    match k {
        Tok::LineComment | Tok::BlockComment => plain(Class::Comment),
        Tok::IntLiteral | Tok::FloatLiteral => plain(Class::Number),
        Tok::OtherLiteral => plain(Class::Str),
        Tok::Lifetime | Tok::RawLifetime => plain(Class::Symbol),
        Tok::Ident | Tok::RawIdent => {
            let next = next_sig(tr, n + 1);
            let prev = prev_sig(tr, n);
            if next is Some && tr[next->0].2 == Tok::Bang {
                Some(Span { start: a, end: tr[next->0].1, class: Class::BuiltIn, is_marker: false })
            } else if is_keyword(text) {
                plain(Class::Keyword)
            } else if is_prim(text) {
                plain(Class::Type)
            } else if text.len() > 0 && is_uppercase(text[0]) {
                plain(Class::BuiltIn)
            } else if (next is Some && tr[next->0].2 == Tok::OpenParen) || (prev is Some
                && tr[prev->0].2 == Tok::Ident && seg(code, tr[prev->0].0 as int, tr[prev->0].1 as int)
                == "fn"@) {
                plain(Class::Title)
            } else {
                None
            }
        },
        _ => None,
    }
}

/// The spans of the tokens before the `n`th.
pub open spec fn token_spans(code: Seq<char>, tr: Seq<(usize, usize, Tok)>, n: int) -> Seq<Span>
    decreases n,
{
    if n <= 0 || n > tr.len() {
        Seq::empty()
    } else {
        let s = token_spans(code, tr, n - 1);
        match token_span(code, tr, n - 1) {
            Some(sp) => s.push(sp),
            None => s,
        }
    }
}

/// The highlight spans of `code` whose lexer tokens are `toks`.
pub open spec fn highlight_spec(code: Seq<char>, toks: Seq<(u32, Tok)>) -> Seq<Span> {
    let tr = token_ranges(code, toks);
    token_spans(code, tr, tr.len() as int)
}

fn token_span_exec(code: &Vec<char>, tr: &Vec<(usize, usize, Tok)>, n: usize) -> (r: Option<Span>)
    requires
        n < tr.len(),
        ranges_within(tr@, code@.len()),
    ensures
        r == token_span(code@, tr@, n as int),
{
    let (a, b, k) = tr[n];
    assert(seg(code@, a as int, b as int) =~= code@.subrange(a as int, b as int));
    match k {
        Tok::LineComment | Tok::BlockComment => Some(Span { start: a, end: b, class: Class::Comment, is_marker: false }),
        Tok::IntLiteral | Tok::FloatLiteral => Some(Span { start: a, end: b, class: Class::Number, is_marker: false }),
        Tok::OtherLiteral => Some(Span { start: a, end: b, class: Class::Str, is_marker: false }),
        Tok::Lifetime | Tok::RawLifetime => Some(Span { start: a, end: b, class: Class::Symbol, is_marker: false }),
        Tok::Ident | Tok::RawIdent => {
            let next = next_sig_exec(tr, n + 1);
            let prev = prev_sig_exec(tr, n);
            let next_is_bang = match next {
                Some(j) => tr[j].2 == Tok::Bang,
                None => false,
            };
            if next_is_bang {
                let j = next.unwrap();
                return Some(Span { start: a, end: tr[j].1, class: Class::BuiltIn, is_marker: false });
            }
            if keyword_exec(code, a, b) {
                return Some(Span { start: a, end: b, class: Class::Keyword, is_marker: false });
            }
            if prim_exec(code, a, b) {
                return Some(Span { start: a, end: b, class: Class::Type, is_marker: false });
            }
            if a < b && uppercase(code[a]) {
                return Some(Span { start: a, end: b, class: Class::BuiltIn, is_marker: false });
            }
            let next_is_paren = match next {
                Some(j) => tr[j].2 == Tok::OpenParen,
                None => false,
            };
            let after_fn = match prev {
                Some(p) => tr[p].2 == Tok::Ident && range_eq_str(code, tr[p].0, tr[p].1, "fn"),
                None => false,
            };
            if let Some(p) = prev {
                assert(seg(code@, tr@[p as int].0 as int, tr@[p as int].1 as int) =~= code@.subrange(
                    tr@[p as int].0 as int,
                    tr@[p as int].1 as int,
                ));
            }
            if next_is_paren || after_fn {
                Some(Span { start: a, end: b, class: Class::Title, is_marker: false })
            } else {
                None
            }
        },
        _ => None,
    }
}

/// The highlight spans of `code`, given its lexer tokens.
pub fn highlight_tokens(code: &Vec<char>, toks: &Vec<(u32, Tok)>) -> (r: Vec<Span>)
    ensures
        r@ == highlight_spec(code@, toks@),
{
    let tr = token_ranges_exec(code, toks);
    let mut out: Vec<Span> = Vec::new();
    let mut n: usize = 0;
    while n < tr.len()
        invariant
            n <= tr.len(),
            tr@ == token_ranges(code@, toks@),
            ranges_within(tr@, code@.len()),
            out@ == token_spans(code@, tr@, n as int),
        decreases tr.len() - n,
    {
        match token_span_exec(code, &tr, n) {
            Some(sp) => out.push(sp),
            None => {},
        }
        n = n + 1;
    }
    out
}

/// The highlight spans of `code`: its tokens as rustc's lexer reads them.
pub fn highlight(code: &Vec<char>) -> (r: Vec<Span>)
    ensures
        r@ == highlight_spec(code@, rust_tokens(code@)),
{
    let s = string_of(code);
    let toks = lex(s.as_str());
    highlight_tokens(code, &toks)
}

/// Whether `text` is exactly one lifetime token and nothing else.
pub open spec fn is_one_lifetime(text: Seq<char>) -> bool {
    let t = rust_tokens(text);
    t.len() == 1 && (t[0].1 == Tok::Lifetime || t[0].1 == Tok::RawLifetime)
}

pub fn one_lifetime(text: &Vec<char>) -> (r: bool)
    ensures
        r == is_one_lifetime(text@),
{
    let s = string_of(text);
    let toks = lex(s.as_str());
    toks.len() == 1 && (toks[0].1 == Tok::Lifetime || toks[0].1 == Tok::RawLifetime)
}

proof fn lemma_ranges_from(code: Seq<char>, toks: Seq<(u32, Tok)>, k: int, pos: int)
    requires
        0 <= k <= toks.len(),
    ensures
        ranges_from(code, toks, k, pos).len() == toks.len() - k,
        forall|m: int|
            0 <= m < toks.len() - k ==> (#[trigger] ranges_from(code, toks, k, pos)[m]).2
                == toks[k + m].1,
    decreases toks.len() - k,
{
    if k < toks.len() {
        let e = advance(code, pos, toks[k].0 as int);
        lemma_ranges_from(code, toks, k + 1, e);
        let r = ranges_from(code, toks, k + 1, e);
        assert forall|m: int| 0 <= m < toks.len() - k implies (#[trigger] ranges_from(
            code,
            toks,
            k,
            pos,
        )[m]).2 == toks[k + m].1 by {
            if m > 0 {
                assert(ranges_from(code, toks, k, pos)[m] == r[m - 1]);
            }
        }
    }
}

proof fn lemma_token_spans_keep(code: Seq<char>, tr: Seq<(usize, usize, Tok)>, total: int, n: int)
    requires
        0 <= n < total <= tr.len(),
        token_span(code, tr, n) is Some,
    ensures
        token_spans(code, tr, total).contains(token_span(code, tr, n)->0),
    decreases total,
{
    let s = token_spans(code, tr, total - 1);
    if n == total - 1 {
        assert(token_spans(code, tr, total) == s.push(token_span(code, tr, n)->0));
        assert(s.push(token_span(code, tr, n)->0)[s.len() as int] == token_span(code, tr, n)->0);
    } else {
        lemma_token_spans_keep(code, tr, total - 1, n);
        let w = choose|w: int| 0 <= w < s.len() && s[w] == token_span(code, tr, n)->0;
        match token_span(code, tr, total - 1) {
            Some(sp) => {
                assert(s.push(sp)[w] == s[w]);
            },
            None => {},
        }
    }
}

/// What the lexer delimits, the highlighting paints over exactly its range:
/// every comment token of the code yields an `hljs-comment` span, every
/// integer or float literal an `hljs-number` span, every other literal an
/// `hljs-string` span and every lifetime an `hljs-symbol` span, each from
/// the token's first character to its last.
pub proof fn lemma_tokens_are_painted_by_kind(code: Seq<char>, toks: Seq<(u32, Tok)>, n: int)
    requires
        0 <= n < toks.len(),
    ensures
        ({
            let tr = token_ranges(code, toks);
            let k = toks[n].1;
            let class = if k == Tok::LineComment || k == Tok::BlockComment {
                Some(Class::Comment)
            } else if k == Tok::IntLiteral || k == Tok::FloatLiteral {
                Some(Class::Number)
            } else if k == Tok::OtherLiteral {
                Some(Class::Str)
            } else if k == Tok::Lifetime || k == Tok::RawLifetime {
                Some(Class::Symbol)
            } else {
                None
            };
            class matches Some(c) ==> highlight_spec(code, toks).contains(
                Span { start: tr[n].0, end: tr[n].1, class: c, is_marker: false },
            )
        }),
{
    lemma_ranges_from(code, toks, 0, 0);
    let tr = token_ranges(code, toks);
    assert(tr[n].2 == toks[n].1);
    let k = toks[n].1;
    if k == Tok::LineComment || k == Tok::BlockComment || k == Tok::IntLiteral || k
        == Tok::FloatLiteral || k == Tok::OtherLiteral || k == Tok::Lifetime || k == Tok::RawLifetime {
        assert(token_span(code, tr, n) is Some);
        lemma_token_spans_keep(code, tr, tr.len() as int, n);
    }
}

} // verus!

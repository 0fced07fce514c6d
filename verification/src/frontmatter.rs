//! YAML front matter at the top of a deck.
//!
//! The shape follows `reveal-md`: deck-level keys at the top, reveal's own
//! options nested under `revealOptions`. A block is only recognised when
//! the file *starts* with `---`, which keeps it unambiguous: anywhere else
//! that line is a slide separator. It ends at the first line reading `---`
//! or `...` once trailing whitespace is removed.
//!
//! Here the block is found and the reveal options a deck may not set are
//! refused; reading the YAML itself is the caller's.

use vstd::prelude::*;
use crate::origins::{line_end, lemma_line_end, line_end_exec};
use crate::text::{
    blank_range, chars_of, eq_str, is_blank, push_range, push_str, range_eq_str, skip_ws_back,
    starts_with, string_of, trim_end,
};

verus! {

/// The length of the fence that opens a front matter block at the start of
/// `content`, if one does.
pub open spec fn opening(content: Seq<char>) -> Option<int> {
    if starts_with(content, "---\n"@) {
        Some(4)
    } else if starts_with(content, "---\r\n"@) {
        Some(5)
    } else {
        None
    }
}

/// Whether a line closes a front matter block.
pub open spec fn is_close_line(line: Seq<char>) -> bool {
    trim_end(line) == "---"@ || trim_end(line) == "..."@
}

/// The start of the first line at or after line start `p` that closes the
/// block.
pub open spec fn close_from(s: Seq<char>, p: int) -> Option<int>
    decreases s.len() - p,
{
    if p < 0 || p >= s.len() {
        None
    } else {
        proof {
            lemma_line_end(s, p);
        }
        if is_close_line(s.subrange(p, line_end(s, p))) {
            Some(p)
        } else {
            close_from(s, line_end(s, p))
        }
    }
}

/// A deck split at its front matter.
pub struct Located {
    /// The YAML between the fences; `None` where there is no block or it
    /// is blank, either of which reads as no settings.
    pub yaml: Option<String>,
    /// The markdown after the block, or the whole deck where there is none.
    pub body: String,
}

/// Why a deck's front matter is refused.
#[derive(PartialEq, Eq, Structural)]
pub enum FrontError {
    /// The file starts with `---` but no line closes the block.
    Unclosed,
    /// The block sets a reveal option the deck relies on; the index is into
    /// the reserved options, see [`reserved_key`].
    Reserved(usize),
}

/// The split of a deck: `Err` where the block is never closed, else the
/// YAML (when there is some that is not blank) and the body.
pub open spec fn locate_spec(content: Seq<char>) -> Result<(Option<Seq<char>>, Seq<char>), FrontError> {
    match opening(content) {
        None => Ok((None, content)),
        Some(n) => {
            let rest = content.skip(n);
            match close_from(rest, 0) {
                None => Err(FrontError::Unclosed),
                Some(p) => {
                    let yaml = rest.take(p);
                    let body = rest.skip(line_end(rest, p));
                    if is_blank(yaml) {
                        Ok((None, body))
                    } else {
                        Ok((Some(yaml), body))
                    }
                },
            }
        },
    }
}

pub open spec fn located_view(l: Located) -> (Option<Seq<char>>, Seq<char>) {
    (
        match l.yaml {
            Some(y) => Some(y@),
            None => None,
        },
        l.body@,
    )
}

/// Splits a deck into its front matter and its markdown body.
pub fn locate(content: &str) -> (r: Result<Located, FrontError>)
    ensures
        match r {
            Ok(l) => locate_spec(content@) == Ok::<_, FrontError>(located_view(l)),
            Err(e) => locate_spec(content@) == Err::<(Option<Seq<char>>, Seq<char>), _>(e),
        },
{
    proof {
        reveal_strlit("---\n");
        reveal_strlit("---\r\n");
    }
    let c = chars_of(content);
    let n: usize = if c.len() >= 4 && range_eq_str(&c, 0, 4, "---\n") {
        4
    } else if c.len() >= 5 && range_eq_str(&c, 0, 5, "---\r\n") {
        5
    } else {
        assert(opening(content@) is None) by {
            if c.len() >= 4 {
                assert(content@.take(4) == c@.subrange(0, 4));
            }
            if c.len() >= 5 {
                assert(content@.take(5) == c@.subrange(0, 5));
            }
        }
        return Ok(Located { yaml: None, body: string_of(&c) });
    };
    assert(opening(content@) == Some(n as int)) by {
        assert(content@.take(4) == c@.subrange(0, 4));
        if n == 5 {
            assert(content@.take(5) == c@.subrange(0, 5));
        }
    }
    let ghost rest = content@.skip(n as int);
    let mut p = n;
    while p < c.len()
        invariant
            n <= p <= c.len(),
            rest == c@.skip(n as int),
            c@ == content@,
            rest == content@.skip(n as int),
            opening(content@) == Some(n as int),
            close_from(rest, p - n) == close_from(rest, 0),
        decreases c.len() - p,
    {
        let e = line_end_exec(&c, p);
        assert(line_end(rest, p - n) == e - n) by {
            lemma_line_end_shift(c@, n as int, p as int);
        }
        assert(rest.subrange(p - n, e - n) =~= c@.subrange(p as int, e as int));
        let t = skip_ws_back(&c, p, e);
        if range_eq_str(&c, p, t, "---") || range_eq_str(&c, p, t, "...") {
            assert(close_from(rest, p - n) == Some(p - n));
            let mut yaml: Vec<char> = Vec::new();
            push_range(&mut yaml, &c, n, p);
            assert(yaml@ =~= rest.take(p - n));
            let mut body: Vec<char> = Vec::new();
            push_range(&mut body, &c, e, c.len());
            assert(body@ =~= rest.skip(e - n));
            assert(c@.subrange(n as int, p as int) =~= rest.take(p - n));
            let bs = string_of(&body);
            if blank_range(&c, n, p) {
                let l = Located { yaml: None, body: bs };
                assert(located_view(l) == (None::<Seq<char>>, rest.skip(e - n)));
                return Ok(l);
            }
            let l = Located { yaml: Some(string_of(&yaml)), body: bs };
            assert(located_view(l) == (Some(rest.take(p - n)), rest.skip(e - n)));
            return Ok(l);
        }
        p = e;
    }
    Err(FrontError::Unclosed)
}

/// Line ends in a suffix of `s` are those of `s`, shifted.
proof fn lemma_line_end_shift(s: Seq<char>, n: int, p: int)
    requires
        0 <= n <= p < s.len(),
    ensures
        line_end(s.skip(n), p - n) == line_end(s, p) - n,
    decreases s.len() - p,
{
    assert(s.skip(n)[p - n] == s[p]);
    if s[p] != '\n' {
        if p + 1 < s.len() {
            lemma_line_end_shift(s, n, p + 1);
        } else {
            assert(line_end(s, p + 1) == s.len());
            assert(line_end(s.skip(n), p - n + 1) == s.skip(n).len());
        }
    }
}

/// The reveal option a deck may not set, by index: the pipeline depends on
/// them, and silently ignoring an option a deck asked for is worse than
/// refusing it.
pub open spec fn reserved_key(i: int) -> Seq<char> {
    if i == 0 {
        "disableLayout"@
    } else {
        "plugins"@
    }
}

/// Why a reserved option may not be set.
pub open spec fn reserved_why(i: int) -> Seq<char> {
    if i == 0 {
        "the deck relies on reveal not scaling slides: Aquascope draws its arrows in document coordinates and does not compensate for a scaled ancestor"@
    } else {
        "plugins are live JavaScript objects and cannot be expressed in YAML"@
    }
}

/// How many reveal options are reserved.
pub const RESERVED_COUNT: usize = 2;

fn reserved_key_exec(i: usize) -> (r: &'static str)
    ensures
        r@ == reserved_key(i as int),
{
    if i == 0 {
        "disableLayout"
    } else {
        "plugins"
    }
}

fn reserved_why_exec(i: usize) -> (r: &'static str)
    ensures
        r@ == reserved_why(i as int),
{
    if i == 0 {
        "the deck relies on reveal not scaling slides: Aquascope draws its arrows in document coordinates and does not compensate for a scaled ancestor"
    } else {
        "plugins are live JavaScript objects and cannot be expressed in YAML"
    }
}

/// Whether `keys` holds `k`.
pub open spec fn has_key(keys: Seq<Seq<char>>, k: Seq<char>) -> bool {
    exists|i: int| 0 <= i < keys.len() && keys[i] == k
}

/// The first reserved option, in their order, that `keys` sets.
pub open spec fn reserved_from(keys: Seq<Seq<char>>, i: int) -> Option<usize>
    decreases RESERVED_COUNT - i,
{
    if i < 0 || i >= RESERVED_COUNT {
        None
    } else if has_key(keys, reserved_key(i)) {
        Some(i as usize)
    } else {
        reserved_from(keys, i + 1)
    }
}

/// The refusal owed to a block whose `revealOptions` has the given keys,
/// if any.
pub open spec fn reserved_spec(keys: Seq<Seq<char>>) -> Option<FrontError> {
    match reserved_from(keys, 0) {
        Some(i) => Some(FrontError::Reserved(i)),
        None => None,
    }
}

fn contains_key(keys: &Vec<String>, k: &str) -> (r: bool)
    ensures
        r == has_key(crate::lines::string_views(keys@), k@),
{
    let ghost ks = crate::lines::string_views(keys@);
    let mut i: usize = 0;
    while i < keys.len()
        invariant
            i <= keys.len(),
            ks == crate::lines::string_views(keys@),
            forall|j: int| 0 <= j < i ==> ks[j] != k@,
        decreases keys.len() - i,
    {
        let c = chars_of(keys[i].as_str());
        assert(ks[i as int] == keys@[i as int]@);
        if eq_str(&c, k) {
            return true;
        }
        i = i + 1;
    }
    false
}

/// The refusal owed to a block whose `revealOptions` has the given keys,
/// if it sets a reserved one.
pub fn reserved_problem(keys: &Vec<String>) -> (r: Option<FrontError>)
    ensures
        r == reserved_spec(crate::lines::string_views(keys@)),
{
    let ghost ks = crate::lines::string_views(keys@);
    let mut i: usize = 0;
    while i < RESERVED_COUNT
        invariant
            i <= RESERVED_COUNT,
            ks == crate::lines::string_views(keys@),
            reserved_from(ks, i as int) == reserved_from(ks, 0),
        decreases RESERVED_COUNT - i,
    {
        if contains_key(keys, reserved_key_exec(i)) {
            return Some(FrontError::Reserved(i));
        }
        i = i + 1;
    }
    None
}

/// What a refusal says.
pub open spec fn front_message(e: FrontError) -> Seq<char> {
    match e {
        FrontError::Unclosed => "front matter opened with `---` but was never closed"@,
        FrontError::Reserved(i) => "front matter may not set revealOptions."@ + reserved_key(
            i as int,
        ) + ": "@ + reserved_why(i as int),
    }
}

impl FrontError {
    /// What the refusal says.
    pub fn message(&self) -> (r: String)
        ensures
            r@ == front_message(*self),
    {
        match self {
            FrontError::Unclosed => {
                let mut out: Vec<char> = Vec::new();
                push_str(&mut out, "front matter opened with `---` but was never closed");
                string_of(&out)
            },
            FrontError::Reserved(i) => {
                let mut out: Vec<char> = Vec::new();
                push_str(&mut out, "front matter may not set revealOptions.");
                push_str(&mut out, reserved_key_exec(*i));
                push_str(&mut out, ": ");
                push_str(&mut out, reserved_why_exec(*i));
                string_of(&out)
            },
        }
    }
}

proof fn lemma_close_from_bound(s: Seq<char>, p: int)
    requires
        0 <= p,
    ensures
        close_from(s, p) matches Some(q) ==> p <= q < s.len(),
    decreases s.len() - p,
{
    if p < s.len() {
        lemma_line_end(s, p);
        lemma_close_from_bound(s, line_end(s, p));
    }
}

/// The body is the deck's own text after the block, unchanged: a suffix of
/// the deck. Positions computed against the body are therefore positions in
/// the deck, shifted by the length of the block.
pub proof fn lemma_body_is_a_suffix(content: Seq<char>)
    ensures
        locate_spec(content) matches Ok((_, body)) ==> body.len() <= content.len()
            && content.skip(content.len() - body.len()) == body,
{
    reveal_strlit("---\n");
    reveal_strlit("---\r\n");
    match opening(content) {
        None => {
            assert(content.skip(0) =~= content);
        },
        Some(n) => {
            let rest = content.skip(n);
            lemma_close_from_bound(rest, 0);
            match close_from(rest, 0) {
                None => {},
                Some(p) => {
                    lemma_line_end(rest, p);
                    let body = rest.skip(line_end(rest, p));
                    assert(content.skip(content.len() - body.len()) =~= body);
                },
            }
        },
    }
}

/// The number of newlines in `s`.
pub open spec fn count_newlines(s: Seq<char>) -> nat
    decreases s.len(),
{
    if s.len() == 0 {
        0
    } else {
        count_newlines(s.drop_last()) + if s.last() == '\n' {
            1nat
        } else {
            0nat
        }
    }
}

/// The number of newlines in `s`: how many lines the front matter block
/// takes, given its text, so that lines of the body can be numbered as the
/// file on disk numbers them.
pub fn newlines(s: &str) -> (r: usize)
    ensures
        r == count_newlines(s@),
{
    let c = chars_of(s);
    let mut n: usize = 0;
    let mut k: usize = 0;
    while k < c.len()
        invariant
            k <= c.len(),
            n == count_newlines(c@.take(k as int)),
            n <= k,
        decreases c.len() - k,
    {
        assert(c@.take(k + 1).drop_last() =~= c@.take(k as int));
        if c[k] == '\n' {
            n = n + 1;
        }
        k = k + 1;
    }
    assert(c@.take(c.len() as int) =~= s@);
    n
}

} // verus!

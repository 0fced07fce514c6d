//! The Run button's backend: what a compile-and-run request is answered
//! with, short of compiling and running.
//!
//! The editor shows the `result` text of the answer and assigns it to
//! `innerHTML`, so everything in it is HTML, escaped at the point it is
//! built: [`plain`] for text, [`ansi`] for rustc's coloured output. A
//! snippet's own stdout is [`plain`], so a program printing escape codes
//! cannot style the slide.

use vstd::prelude::*;
use crate::spans::{escape_html, push_escaped};
use crate::text::{chars_of, decimal, eq_str, is_ascii_alpha, push_decimal, push_str, string_of};

verus! {

/// Prefix of the CSS variables the colours are emitted as.
pub const VAR_PREFIX: &'static str = "aq-ansi-";

/// Seconds a snippet may run before it is killed. Long enough that nothing a
/// lecture demonstrates hits it by accident.
pub const TIMEOUT_SECS: u64 = 10;

/// The edition a request asks for: 2015, 2018 or 2024 when it names one of
/// them, 2021 otherwise. It goes onto a command line, so it is not taken on
/// trust.
pub open spec fn edition_spec(requested: Option<Seq<char>>) -> Seq<char> {
    match requested {
        Some(s) => if s == "2015"@ {
            "2015"@
        } else if s == "2018"@ {
            "2018"@
        } else if s == "2024"@ {
            "2024"@
        } else {
            "2021"@
        },
        None => "2021"@,
    }
}

/// The optimisation level a request asks for: 1, 2 or 3 when it names one
/// of them, 0 otherwise.
pub open spec fn opt_level_spec(requested: Option<Seq<char>>) -> Seq<char> {
    match requested {
        Some(s) => if s == "1"@ {
            "1"@
        } else if s == "2"@ {
            "2"@
        } else if s == "3"@ {
            "3"@
        } else {
            "0"@
        },
        None => "0"@,
    }
}

pub open spec fn opt_view(o: Option<&str>) -> Option<Seq<char>> {
    match o {
        Some(s) => Some(s@),
        None => None,
    }
}

/// The edition to compile a snippet with.
pub fn edition(requested: Option<&str>) -> (r: &'static str)
    ensures
        r@ == edition_spec(opt_view(requested)),
{
    match requested {
        Some(s) => {
            let c = chars_of(s);
            if eq_str(&c, "2015") {
                "2015"
            } else if eq_str(&c, "2018") {
                "2018"
            } else if eq_str(&c, "2024") {
                "2024"
            } else {
                "2021"
            }
        },
        None => "2021",
    }
}

/// The optimisation level to compile a snippet with.
pub fn opt_level(requested: Option<&str>) -> (r: &'static str)
    ensures
        r@ == opt_level_spec(opt_view(requested)),
{
    match requested {
        Some(s) => {
            let c = chars_of(s);
            if eq_str(&c, "1") {
                "1"
            } else if eq_str(&c, "2") {
                "2"
            } else if eq_str(&c, "3") {
                "3"
            } else {
                "0"
            }
        },
        None => "0",
    }
}

/// Text with no markup of its own, escaped for `innerHTML`.
pub fn plain(s: &str) -> (r: String)
    ensures
        r@ == escape_html(s@),
{
    let c = chars_of(s);
    let mut out: Vec<char> = Vec::new();
    push_escaped(&mut out, &c, 0, c.len());
    assert(c@.subrange(0, c@.len() as int) =~= c@);
    string_of(&out)
}

/// `s` from the start with SGR escape sequences removed: an escape
/// character and everything up to and including the next ASCII letter.
/// `skipping` is whether a sequence is being skipped.
pub open spec fn strip_ansi_from(s: Seq<char>, skipping: bool) -> Seq<char>
    decreases s.len(),
{
    if s.len() == 0 {
        Seq::empty()
    } else if skipping {
        strip_ansi_from(s.drop_first(), !is_ascii_alpha(s[0]))
    } else if s[0] == '\x1b' {
        strip_ansi_from(s.drop_first(), true)
    } else {
        seq![s[0]] + strip_ansi_from(s.drop_first(), false)
    }
}

pub open spec fn strip_ansi_spec(s: Seq<char>) -> Seq<char> {
    strip_ansi_from(s, false)
}

/// Nothing of an escape sequence is left once they are stripped: the
/// result holds no escape character.
pub proof fn lemma_stripped_text_has_no_escapes(s: Seq<char>, skipping: bool)
    ensures
        forall|i: int|
            0 <= i < strip_ansi_from(s, skipping).len() ==> #[trigger] strip_ansi_from(
                s,
                skipping,
            )[i] != '\x1b',
    decreases s.len(),
{
    if s.len() > 0 {
        lemma_stripped_text_has_no_escapes(s.drop_first(), !is_ascii_alpha(s[0]));
        lemma_stripped_text_has_no_escapes(s.drop_first(), true);
        lemma_stripped_text_has_no_escapes(s.drop_first(), false);
        if !skipping && s[0] != '\x1b' {
            let r = strip_ansi_from(s.drop_first(), false);
            assert forall|i: int| 0 <= i < (seq![s[0]] + r).len() implies #[trigger] (seq![s[0]]
                + r)[i] != '\x1b' by {
                if i > 0 {
                    assert((seq![s[0]] + r)[i] == r[i - 1]);
                }
            }
        }
    }
}

/// What the fallback shows holds neither markup nor escape codes: a
/// diagnostic the converter could not read still cannot style the slide.
pub proof fn lemma_fallback_is_plain_text(s: Seq<char>)
    ensures
        forall|i: int|
            0 <= i < ansi_spec(s, None).len() ==> #[trigger] ansi_spec(s, None)[i] != '<'
                && ansi_spec(s, None)[i] != '>' && ansi_spec(s, None)[i] != '\x1b',
{
    crate::spans::lemma_escaped_text_has_no_tags(strip_ansi_spec(s));
    lemma_stripped_text_has_no_escapes(s, false);
    lemma_escape_keeps_absent_chars(strip_ansi_spec(s), '\x1b');
}

/// A character that is not `&`, `;` or a letter, and is absent from the
/// text, is absent from its escaping too.
proof fn lemma_escape_keeps_absent_chars(s: Seq<char>, c: char)
    requires
        c != '&' && c != ';' && !is_ascii_alpha(c),
        forall|i: int| 0 <= i < s.len() ==> #[trigger] s[i] != c,
    ensures
        forall|i: int| 0 <= i < escape_html(s).len() ==> #[trigger] escape_html(s)[i] != c,
    decreases s.len(),
{
    reveal_strlit("&amp;");
    reveal_strlit("&lt;");
    reveal_strlit("&gt;");
    if s.len() > 0 {
        assert forall|i: int| 0 <= i < s.drop_last().len() implies #[trigger] s.drop_last()[i]
            != c by {
            assert(s.drop_last()[i] == s[i]);
        }
        lemma_escape_keeps_absent_chars(s.drop_last(), c);
        let a = escape_html(s.drop_last());
        let b = crate::spans::esc_char(s.last());
        assert(s.last() == s[s.len() - 1]);
        assert forall|i: int| 0 <= i < (a + b).len() implies #[trigger] (a + b)[i] != c by {
            if i >= a.len() {
                assert((a + b)[i] == b[i - a.len()]);
            } else {
                assert((a + b)[i] == a[i]);
            }
        }
    }
}

/// Last-resort removal of SGR sequences.
pub fn strip_ansi(s: &str) -> (r: String)
    ensures
        r@ == strip_ansi_spec(s@),
{
    let c = chars_of(s);
    let mut out: Vec<char> = Vec::new();
    let mut skipping = false;
    let mut i: usize = 0;
    assert(c@.skip(0) =~= c@);
    assert(out@ + strip_ansi_from(c@, false) =~= strip_ansi_spec(c@));
    while i < c.len()
        invariant
            i <= c.len(),
            out@ + strip_ansi_from(c@.skip(i as int), skipping) == strip_ansi_spec(c@),
        decreases c.len() - i,
    {
        let ch = c[i];
        assert(c@.skip(i as int).drop_first() =~= c@.skip(i + 1));
        assert(c@.skip(i as int)[0] == ch);
        let ghost before = out@;
        if skipping {
            skipping = !crate::text::ascii_alpha(ch);
        } else if ch == '\x1b' {
            skipping = true;
        } else {
            out.push(ch);
            assert(out@ + strip_ansi_from(c@.skip(i + 1), false) =~= before + (seq![ch]
                + strip_ansi_from(c@.skip(i + 1), false)));
        }
        i = i + 1;
    }
    assert(c@.skip(c.len() as int) =~= Seq::<char>::empty());
    assert(out@ + Seq::<char>::empty() =~= out@);
    string_of(&out)
}

/// What `ansi_to_html` converts `input` to, with the light theme and
/// four-bit colours as CSS variables named with `prefix`; `None` where it
/// reports an error.
pub uninterp spec fn ansi_html(input: Seq<char>, prefix: Seq<char>) -> Option<Seq<char>>;

/// Calls `ansi_to_html::Converter::new()` with `theme(Theme::Light)` and
/// `four_bit_var_prefix(Some(prefix))`, then `convert(input)`; an error
/// becomes `None`. The contract only names the result.
#[verifier::external_body]
fn convert_ansi(input: &str, prefix: &str) -> (r: Option<String>)
    ensures
        match r {
            Some(h) => ansi_html(input@, prefix@) == Some(h@),
            None => ansi_html(input@, prefix@) is None,
        },
{
    ansi_to_html::Converter::new().theme(ansi_to_html::Theme::Light).four_bit_var_prefix(
        Some(prefix.to_string()),
    ).convert(input).ok()
}

/// rustc's coloured output `s` as HTML, given what the converter made of
/// it: the converted HTML, or where conversion failed, the text escaped
/// with its escape codes stripped.
pub open spec fn ansi_spec(s: Seq<char>, converted: Option<Seq<char>>) -> Seq<char> {
    match converted {
        Some(h) => h,
        None => escape_html(strip_ansi_spec(s)),
    }
}

/// rustc's coloured output as HTML, given what the converter made of it.
pub fn ansi_or_fallback(s: &str, converted: Option<String>) -> (r: String)
    ensures
        r@ == ansi_spec(
            s@,
            match converted {
                Some(h) => Some(h@),
                None => None,
            },
        ),
{
    match converted {
        Some(h) => h,
        None => plain(strip_ansi(s).as_str()),
    }
}

/// rustc's coloured output as HTML. Colours come out as
/// `var(--aq-ansi-<name>, <terminal default>)`, so a deck restyles them by
/// setting those variables.
pub fn ansi(s: &str) -> (r: String)
    ensures
        r@ == ansi_spec(s@, ansi_html(s@, VAR_PREFIX@)),
{
    let converted = convert_ansi(s, VAR_PREFIX);
    ansi_or_fallback(s, converted)
}

/// What a program's run is reported as: its stderr, then its stdout, and,
/// where it was killed after `secs` seconds, a line saying so, started on a
/// line of its own.
pub open spec fn program_output_spec(
    stderr: Seq<char>,
    stdout: Seq<char>,
    timed_out: bool,
    secs: nat,
) -> Seq<char> {
    let out = stderr + stdout;
    if timed_out {
        let sep = if out.len() > 0 && out.last() != '\n' {
            seq!['\n']
        } else {
            Seq::empty()
        };
        out + sep + "Timeout: the program was killed after "@ + decimal(secs) + " seconds.\n"@
    } else {
        out
    }
}

/// The text a program's run is reported as, from what it wrote and whether
/// it had to be killed.
pub fn program_output(stderr: &str, stdout: &str, timed_out: bool, secs: u64) -> (r: String)
    ensures
        r@ == program_output_spec(stderr@, stdout@, timed_out, secs as nat),
{
    let mut out: Vec<char> = Vec::new();
    push_str(&mut out, stderr);
    push_str(&mut out, stdout);
    if timed_out {
        let n = out.len();
        if n > 0 && out[n - 1] != '\n' {
            out.push('\n');
        }
        push_str(&mut out, "Timeout: the program was killed after ");
        push_decimal(&mut out, secs);
        push_str(&mut out, " seconds.\n");
    }
    string_of(&out)
}

} // verus!

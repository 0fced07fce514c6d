//! Each law the library proves, checked on concrete values.

use aquascope_reveal::attributes::apply;
use aquascope_reveal::deck::Deck;
use aquascope_reveal::lint::{distance, suggest};
use aquascope_reveal::markers::{program, split_hidden, strip};
use aquascope_reveal::origins::{check, render, replacements, Options, Program};
use aquascope_reveal::page::apply_edits;
use aquascope_reveal::run::{ansi_or_fallback, plain, strip_ansi};
use aquascope_reveal::markers::{Class, Span};
use aquascope_reveal::spans::{attribute, sort_spans_exec};

fn chars(s: &str) -> Vec<char> {
    s.chars().collect()
}

fn text(v: &[char]) -> String {
    v.iter().collect()
}

#[test]
fn escaped_text_has_no_tags() {
    let escaped = plain("<script>alert('x')</script> & <b>");
    assert!(!escaped.contains('<') && !escaped.contains('>'), "{escaped}");
}

#[test]
fn attribute_values_are_inert() {
    let v = text(&attribute(&chars("a\"b<c>d\ne\rf&g")));
    assert_eq!(v, "a&quot;b&lt;c&gt;d&#10;e&#13;f&amp;g");
    for c in ['"', '<', '>', '\n', '\r'] {
        assert!(!v.contains(c));
    }
}

#[test]
fn stripping_leaves_no_escape_and_the_fallback_no_markup() {
    let s = "\x1b[1m<err>\x1b[0m\x1b[";
    assert!(!strip_ansi(s).contains('\x1b'));
    let shown = ansi_or_fallback(s, None);
    assert_eq!(shown, "&lt;err&gt;");
}

#[test]
fn no_box_without_a_marker() {
    let src = "fn f<'a>(x: &'a str) -> char { '!' }";
    let (code, spans) = match strip(&chars(src)) {
        Ok(r) => r,
        Err(_) => panic!("plain Rust is not refused"),
    };
    assert_eq!(text(&code), src);
    assert!(spans.is_empty());
    assert_eq!(text(&program(&chars(src))), src);
}

#[test]
fn sigils_read_as_the_frames_they_abbreviate() {
    let sugar = strip(&chars("let r: &'!a str = x;")).ok().unwrap();
    let frame = strip(&chars("let r: &[[a:'a:]] str = x;")).ok().unwrap();
    assert_eq!(sugar.0, frame.0);
    assert_eq!(sugar.1.len(), 1);
    assert_eq!(frame.1.len(), 1);
    assert_eq!((sugar.1[0].start, sugar.1[0].end), (frame.1[0].start, frame.1[0].end));
    let sugar = strip(&chars("&'?b T")).ok().unwrap();
    let frame = strip(&chars("&[[?:'b:]] T")).ok().unwrap();
    assert_eq!(sugar.0, frame.0);
    assert_eq!((sugar.1[0].start, sugar.1[0].end), (frame.1[0].start, frame.1[0].end));
}

#[test]
fn hidden_lines_are_compiled() {
    let body = "# fn main() {\nlet x = 1;\n    # let y = 2;\n## shown\n# }";
    let (shown, all) = split_hidden(&chars(body));
    assert_eq!(text(&shown), "let x = 1;\n# shown");
    assert_eq!(text(&all), "fn main() {\nlet x = 1;\n    let y = 2;\n# shown\n}");
    assert_eq!(text(&all).split('\n').count(), body.split('\n').count());
}

#[test]
fn no_blank_line_in_a_block() {
    let opts = Options::parse("").ok().unwrap();
    let html = render("let a = 1;\n\n   \nlet b = 2;\n", &opts).ok().unwrap();
    let pre = html.split("<pre class=\"code hljs\">").nth(1).unwrap();
    for line in pre.split('\n') {
        assert!(!line.trim().is_empty(), "{html}");
    }
    assert_eq!(pre.split('\n').count(), 4);
}

#[test]
fn distance_is_a_metric_on_these_words() {
    let (a, b) = (chars("kitten"), chars("sitting"));
    assert_eq!(distance(&a, &b), 3);
    assert_eq!(distance(&b, &a), 3);
    assert_eq!(distance(&a, &a), 0);
}

#[test]
fn the_suggestion_is_the_closest_known_name() {
    let known = vec![chars("horizontal"), chars("hideCode"), chars("shouldFail")];
    assert_eq!(suggest(&chars("houldFail"), &known), Some(chars("shouldFail")));
    assert_eq!(suggest(&chars("zzzzzzzz"), &known), None);
}

#[test]
fn no_blank_slides() {
    let d = Deck::parse("\n---\n\n# A\n\n---\n\n   \n\n---\n\n--\n\n# B\n\n--\n\n");
    assert_eq!(d.slides.len(), 2);
    for stack in &d.slides {
        assert!(!stack.is_empty());
        for slide in stack {
            assert!(!slide.trim().is_empty());
        }
    }
}

#[test]
fn one_report_per_disagreement() {
    let p = |line: usize, should_fail: bool| Program { line, code: String::new(), should_fail };
    let programs = vec![p(1, false), p(5, true), p(9, false), p(12, true)];
    let outcomes = vec![Ok(()), Ok(()), Err("boom".to_string()), Err("ok".to_string())];
    let reports = check(&programs, &outcomes);
    assert_eq!(reports.len(), 2);
    assert!(reports[0].starts_with("5: "));
    assert!(reports[1].starts_with("9: "));
}

#[test]
fn html_without_comments_is_unchanged() {
    let html = "<p class=\"x\">a <em>b</em></p>\n";
    let (out, slide) = apply(html);
    assert_eq!(out, html);
    assert!(slide.is_empty());
}

#[test]
fn origins_replacements_always_apply() {
    let md = "\u{e9} intro\n```origins\nlet r: &'!a str = x;\n```\ntext \u{fc}\n```origins,notation\nfn f<'?a>();\n```\n";
    let (reps, programs) = match replacements(md, 1) {
        Ok(r) => r,
        Err(e) => panic!("{}", e.message()),
    };
    assert_eq!(reps.len(), 2);
    assert_eq!(programs.len(), 1);
    let out = apply_edits(md, reps).unwrap();
    assert!(out.starts_with("\u{e9} intro\n<div class=\"origins-block\">"), "{out}");
    assert!(out.contains("</div>\ntext \u{fc}\n<div class=\"origins-block\">"), "{out}");
    assert!(out.ends_with("</pre></div>\n"), "{out}");
}

#[test]
fn spans_sort_into_opening_order() {
    let sp = |start: usize, end: usize, class: Class, is_marker: bool| Span { start, end, class, is_marker };
    let spans = vec![
        sp(4, 6, Class::Keyword, false),
        sp(0, 3, Class::Comment, false),
        sp(4, 6, Class::Frame(Some('a')), true),
        sp(4, 9, Class::Exact, true),
        sp(0, 3, Class::Str, false),
    ];
    let sorted = sort_spans_exec(&spans);
    let got: Vec<(usize, usize, bool)> = sorted.iter().map(|s| (s.start, s.end, s.is_marker)).collect();
    assert_eq!(got, vec![(0, 3, false), (0, 3, false), (4, 9, true), (4, 6, true), (4, 6, false)]);
    // Ties keep their order.
    assert_eq!(sorted[0].class, Class::Comment);
    assert_eq!(sorted[1].class, Class::Str);
}

#[test]
fn boxes_nest() {
    let (code, spans) = strip(&chars("[[a:x [[*:'!b:]] z:]] [[?:w:]]")).ok().unwrap();
    assert_eq!(text(&code), "x 'b z w");
    let ranges: Vec<(usize, usize)> = spans.iter().map(|s| (s.start, s.end)).collect();
    assert_eq!(ranges, vec![(2, 4), (2, 4), (0, 6), (7, 8)]);
    for a in &spans {
        assert!(a.start <= a.end && a.end <= code.len());
        for b in &spans {
            let apart = a.end <= b.start || b.end <= a.start;
            let within = (a.start <= b.start && b.end <= a.end) || (b.start <= a.start && a.end <= b.end);
            assert!(apart || within);
        }
    }
}

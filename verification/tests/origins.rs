use aquascope_reveal::origins::{
    check, check_args, defines_main, render, replacements, Options, Program,
};

/// The single rendered block in `md`.
fn one(md: &str) -> String {
    let (reps, _) = replacements(md, 1).unwrap();
    assert_eq!(reps.len(), 1, "{reps:?}");
    reps.into_iter().next().unwrap().1
}

/// The programs `md`'s blocks would be checked as.
fn programs(md: &str) -> Vec<Program> {
    replacements(md, 1).unwrap().1
}

#[test]
fn frames_and_tints_by_letter() {
    let html = one("```origins\nlet r: &'!a Vec<i32> = &[[a:v:]];\n```\n");
    assert!(html.contains(r#"<span class="oname origin-a">'a</span>"#), "{html}");
    assert!(html.contains(r#"<span class="oframe origin-a">v</span>"#), "{html}");
    assert!(html.contains(r#"<pre class="code hljs">"#), "{html}");
    assert!(!html.contains("<code"), "{html}");
}

#[test]
fn a_bare_lifetime_gets_no_box() {
    let html = one("```origins\nfn f<'a>(x: &'a str) {}\n```\n");
    assert!(html.contains(r#"<span class="hljs-symbol">'a</span>"#), "{html}");
    assert!(!html.contains("oname") && !html.contains("oframe"), "{html}");
}

#[test]
fn question_mark_draws_a_neutral_box() {
    let html = one("```origins\nfn f<'?a>(x: &'?a str) {}\n```\n");
    assert_eq!(html.matches(r#"<span class="oname">'a</span>"#).count(), 2, "{html}");
    assert!(!html.contains("origin-a"), "{html}");
}

#[test]
fn generic_and_concrete_coexist_in_one_block() {
    let html = one(
        "```origins\nfn longest<'?a>(v: &'?a Vec<i32>) -> &'?a Vec<i32> { v }\nlet r: &'!a Vec<i32> = longest(&[[a:v:]]);\n```\n",
    );
    assert_eq!(html.matches(r#"<span class="oname">'a</span>"#).count(), 3, "{html}");
    assert_eq!(html.matches(r#"<span class="oname origin-a">'a</span>"#).count(), 1, "{html}");
}

#[test]
fn a_sigil_is_sugar_for_the_bracket_form() {
    assert_eq!(
        one("```origins\nlet r: &'!a str = x;\n```\n"),
        one("```origins\nlet r: &[[a:'a:]] str = x;\n```\n")
    );
    assert_eq!(
        one("```origins\nlet r: &'?a str = x;\n```\n"),
        one("```origins\nlet r: &[[?:'a:]] str = x;\n```\n")
    );
}

#[test]
fn a_frame_can_box_a_lifetime_in_another_origins_colour() {
    let html = one("```origins\nlet r: &[[b:'a:]] str = x;\n```\n");
    assert!(html.contains(r#"<span class="oname origin-b">'a</span>"#), "{html}");
}

#[test]
fn a_sigil_needs_an_identifier_after_it() {
    let html = one("```origins\nlet c = '!'; let d = '?';\n```\n");
    assert_eq!(html.matches(r#"class="hljs-string""#).count(), 2, "{html}");
    assert!(!html.contains("oname") && !html.contains("oframe"), "{html}");
}

#[test]
fn dashed_box_nests_inside_an_origin() {
    let html = one("```origins\nlet n = [[a:vec![[[*:1:]], 2]:]];\n```\n");
    let exact = html.find(r#"<span class="oexact">"#).unwrap();
    let frame = html.find(r#"<span class="oframe origin-a">"#).unwrap();
    assert!(frame < exact, "{html}");
}

#[test]
fn a_marker_frames_the_highlighting_of_a_token_it_matches() {
    let html = one("```origins\n[[a:vec!:]][1]\n```\n");
    assert!(
        html.contains(r#"<span class="oframe origin-a"><span class="hljs-built_in">vec!</span></span>"#),
        "{html}"
    );
}

#[test]
fn lexes_what_a_regex_gets_wrong() {
    let html = one(
        "```origins\nlet c = 'x'; let r = r#\"a \"q\" b\"#; let n = 1_000i64;\nlet s = \"// no\";\n```\n",
    );
    assert!(html.contains(r#"<span class="hljs-string">'x'</span>"#), "{html}");
    assert!(html.contains(r##"<span class="hljs-string">r#"a "q" b"#</span>"##), "{html}");
    assert!(html.contains(r#"<span class="hljs-number">1_000i64</span>"#), "{html}");
    assert!(!html.contains("hljs-comment"), "{html}");
    assert!(!html.contains("oname"), "{html}");
    assert!(!html.contains("hljs-symbol"), "{html}");
}

#[test]
fn keeps_the_framed_text_verbatim() {
    let html = one("```origins\nlet a = [[a: 1 :]];\n```\n");
    assert!(
        html.contains(r#"<span class="oframe origin-a"> <span class="hljs-number">1</span> </span>"#),
        "{html}"
    );
}

#[test]
fn escapes_html() {
    let html = one("```origins\nlet v: Vec<i32> = f(&x);\n```\n");
    assert!(html.contains("&lt;") && html.contains("&gt;") && html.contains("&amp;"), "{html}");
    assert!(!html.contains("<i32>"), "{html}");
}

#[test]
fn the_rendered_block_has_the_lines_the_author_wrote() {
    let inner = |md: &str| {
        let html = one(md);
        let mut text = String::new();
        let mut depth = 0;
        for ch in html.chars() {
            match ch {
                '<' => depth += 1,
                '>' => depth -= 1,
                c if depth == 0 => text.push(c),
                _ => {}
            }
        }
        text
    };
    assert_eq!(inner("```origins\nlet a = 1;\n```\n"), "let a = 1;");
    assert_eq!(inner("```origins\nlet a = 1;\n\n\n```\n"), "let a = 1;\n&#32;\n&#32;");
    assert_eq!(inner("```origins\n\nlet a = 1;\n```\n"), "&#32;\nlet a = 1;");
    for body in ["a", "a\n\nb", "\na\n", "\n\na\n\n"] {
        let md = format!("```origins\n{body}\n```\n");
        assert_eq!(inner(&md).split('\n').count(), body.split('\n').count(), "{body:?}");
    }
}

#[test]
fn blank_lines_become_an_entity_so_the_html_block_survives() {
    let html = one("```origins\nlet a = 1;\n\nlet b = 2;\n```\n");
    assert!(html.contains(";\n&#32;\n<span"), "{html:?}");
}

#[test]
fn leaves_ordinary_double_brackets_alone() {
    let html = one("```origins\nlet x = m[[i]];\n```\n");
    assert!(html.contains("m[[i]]"), "{html}");
    assert!(!html.contains("oframe"), "{html}");
}

#[test]
fn replaces_only_the_fence_and_finds_every_block() {
    let md = "before\n\n```origins\nlet a = 1;\n```\n\nbetween\n\n```origins\nfn f<'?a>() {}\n```\n\nafter\n";
    let (reps, _) = replacements(md, 1).unwrap();
    assert_eq!(reps.len(), 2);
    assert_eq!(&md[reps[0].0.clone()], "```origins\nlet a = 1;\n```");
    assert_eq!(&md[reps[1].0.clone()], "```origins\nfn f<'?a>() {}\n```");
}

#[test]
fn names_the_line_in_the_file_rather_than_in_the_body() {
    let err = replacements("```origins\nlet a = [[a:1;\n```\n", 4).unwrap_err().message();
    assert!(err.contains("at line 4"), "{err}");
}

#[test]
fn accepts_a_closing_fence_with_trailing_whitespace() {
    let html = one("```origins\nlet a = 1;\n```   \n");
    assert!(html.ends_with("</pre></div>"), "{html}");
    assert!(!html.contains('`'), "{html}");
}

#[test]
fn leaves_a_nested_example_as_text() {
    let md = "````markdown\n```origins\nlet a = [[a:1:]];\n```\n````\n\n```origins\nlet b = 2;\n```\n";
    let (reps, _) = replacements(md, 1).unwrap();
    assert_eq!(reps.len(), 1, "{reps:?}");
    assert_eq!(&md[reps[0].0.clone()], "```origins\nlet b = 2;\n```");
}

#[test]
fn a_hidden_line_is_compiled_but_not_shown() {
    let md = "```origins\n# fn main() {\nlet a = 1;\n# }\n```\n";
    let html = one(md);
    assert!(!html.contains("main"), "{html}");
    assert!(html.contains("<span class=\"hljs-number\">1</span>"), "{html}");
    assert_eq!(programs(md)[0].code, "fn main() {\nlet a = 1;\n}");
}

#[test]
fn a_doubled_hash_shows_one() {
    let html = one("```origins\n## [derive(Debug)]\nstruct S;\n```\n");
    assert!(html.contains("># ["), "{html}");
}

#[test]
fn the_program_is_the_notation_translated_back_into_rust() {
    let md = "```origins\nfn f<'?a>(v: &'?a Vec<i32>) -> &'?a i32 { &[[a:v:]][0] }\nlet r: &'!a i32 = f(&v);\n```\n";
    assert_eq!(
        programs(md)[0].code,
        "fn f<'a>(v: &'a Vec<i32>) -> &'a i32 { &v[0] }\nlet r: &'_ i32 = f(&v);"
    );
}

#[test]
fn run_carries_the_program_in_an_attribute() {
    let html = one("```origins,run\n# fn main() {\nlet r: &'!a i32 = &1;\n# }\n```\n");
    assert!(
        html.contains(r#"data-run-code="fn main() {&#10;let r: &amp;'_ i32 = &amp;1;&#10;}""#),
        "{html}"
    );
    assert!(!html.contains('\n'), "{html:?}");
}

#[test]
fn should_fail_asks_for_the_crab_and_is_not_run() {
    let html = one("```origins,shouldFail\nlet a: i32 = \"s\";\n```\n");
    assert!(
        html.starts_with(r#"<div class="origins-block"><div class="ferris-container">"#),
        "{html}"
    );
    assert!(!html.contains("data-run-code"), "{html}");
    assert!(programs("```origins,shouldFail\nlet a = 1;\n```\n")[0].should_fail);
}

#[test]
fn notation_is_not_compiled_at_all() {
    assert!(programs("```origins,notation\nfn f() -> &'a str\n```\n").is_empty());
    assert_eq!(programs("```origins\nfn main() {}\n```\n").len(), 1);
}

#[test]
fn notation_cannot_also_run_or_fail() {
    for spec in ["notation,run", "notation,shouldFail"] {
        let md = format!("```origins,{spec}\nfn f() {{}}\n```\n");
        let err = replacements(&md, 1).unwrap_err().message();
        assert!(err.contains("not a program"), "{spec}: {err}");
    }
}

#[test]
fn check_reports_what_disagrees_with_the_fence() {
    let good = Program { line: 1, code: "fn main() {}".into(), should_fail: false };
    let bad = Program { line: 2, code: "fn main() { let x: i32 = \"s\"; }".into(), should_fail: false };
    let expected = Program { line: 3, code: "fn main() { let x: i32 = \"s\"; }".into(), should_fail: true };
    let surprise = Program { line: 4, code: "fn main() {}".into(), should_fail: true };
    let mismatch: Result<(), String> = Err("error[E0308]: mismatched types\n --> main.rs:1:26".into());

    assert!(check(&[good, expected], &[Ok(()), mismatch.clone()]).is_empty());
    let problems = check(&[bad, surprise], &[mismatch, Ok(())]);
    assert_eq!(problems.len(), 2, "{problems:?}");
    assert!(problems[0].starts_with("2: ") && problems[0].contains("does not compile"));
    assert!(problems[1].starts_with("4: ") && problems[1].contains("compiles"));
    assert!(problems[0].ends_with("\n        error[E0308]: mismatched types\n         --> main.rs:1:26"));
}

#[test]
fn an_unused_name_is_not_a_failure() {
    // A slide shows what makes its point and nothing else: `unused` is
    // allowed when the program is checked, so rustc's answer is a success.
    let code = "fn helper() {}\nfn main() { let x = 1; }";
    let args = check_args(code);
    assert!(args.windows(2).any(|w| w[0] == "-A" && w[1] == "unused"), "{args:?}");
    let problems = check(
        &[Program { line: 1, code: "fn helper() {}\nfn main() { let x = 1; }".into(), should_fail: false }],
        &[Ok(())],
    );
    assert!(problems.is_empty(), "{problems:?}");
}

#[test]
fn ignores_other_fences() {
    assert!(replacements("```rust\nlet a = 1;\n```\n", 1).unwrap().0.is_empty());
    assert!(replacements("```aquascope,permissions\nfn main() {}\n```\n", 1).unwrap().0.is_empty());
}

#[test]
fn rejects_a_bad_specifier_and_an_unclosed_marker() {
    assert!(replacements("```origins\nlet a = [[a:1;\n```\n", 1).is_err());
    assert!(replacements("```origins\nlet a = 1;\n", 1).is_err());
    let err = replacements("```origins,generic\nfn f() {}\n```\n", 1).unwrap_err().message();
    assert!(err.contains("unknown ```origins specifier `generic`"), "{err}");
}

#[test]
fn capitalised_names_primitives_and_calls_are_painted() {
    let opts = Options::parse("").ok().unwrap();
    let html = render("let v: Vec<i32> = make();\n", &opts).ok().unwrap();
    assert!(html.contains(r#"<span class="hljs-built_in">Vec</span>"#), "{html}");
    assert!(html.contains(r#"<span class="hljs-type">i32</span>"#), "{html}");
    assert!(html.contains(r#"<span class="hljs-title">make</span>"#), "{html}");
    assert!(html.contains(r#"<span class="hljs-keyword">let</span>"#), "{html}");
}

#[test]
fn a_block_with_main_is_a_program_and_one_without_a_set_of_items() {
    let args = check_args("fn main() {\n    let a = 1;\n}");
    assert_eq!(
        args,
        vec!["--edition", "2021", "--crate-type", "bin", "-A", "unused", "--emit=metadata", "-o", "checked", "main.rs"]
    );
    assert_eq!(check_args("struct S;\nimpl S {}")[3], "lib");
    assert!(defines_main("pub fn main() {}"));
    assert!(!defines_main("fn mainly() {}"));
    assert!(!defines_main("fn domain_fn main"));
    assert!(defines_main("x;fn main"));
}

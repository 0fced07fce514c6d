use aquascope_reveal::attributes::{apply, parse_attrs, render, try_apply};

#[test]
fn attaches_to_the_containing_element() {
    let (html, slide) = apply("<ul>\n<li>one <!-- .element: class=\"fragment\" --></li>\n</ul>");
    assert_eq!(html, "<ul>\n<li class=\"fragment\">one </li>\n</ul>", "list item should carry the class");
    assert!(slide.is_empty());
}

#[test]
fn attaches_to_the_preceding_sibling() {
    let (html, _) = apply("<p>text</p>\n<!-- .element: class=\"fragment\" -->");
    assert_eq!(html.trim_end(), "<p class=\"fragment\">text</p>");
}

#[test]
fn merges_with_existing_classes() {
    let (html, _) = apply("<p class=\"note\">t</p>\n<!-- .element: class=\"fragment\" -->");
    assert!(html.contains("class=\"note fragment\""), "{html}");
}

#[test]
fn collects_slide_attributes() {
    let (html, slide) = apply("<!-- .slide: class=\"center\" -->\n<h1>Title</h1>");
    assert_eq!(html.trim(), "<h1>Title</h1>");
    assert_eq!(render(&slide), " class=\"center\"");
}

#[test]
fn handles_nesting_and_multiple_attributes() {
    let (html, _) = apply(
        "<ul>\n<li>a<ul><li>b</li></ul></li>\n</ul>\n<!-- .element: class=\"f\" data-fragment-index=\"2\" -->",
    );
    assert!(html.starts_with("<ul class=\"f\" data-fragment-index=\"2\">"), "{html}");
}

#[test]
fn a_comment_inside_an_element_targets_that_element() {
    let (html, _) = apply("<p><img src=\"a.svg\" /> <!-- .element: class=\"fragment\" --></p>");
    assert!(html.starts_with("<p class=\"fragment\">"), "{html}");
}

#[test]
fn targets_a_void_element_as_a_sibling() {
    let (html, _) = apply("<img src=\"a.svg\" />\n<!-- .element: class=\"fragment\" -->");
    assert!(html.starts_with("<img src=\"a.svg\" class=\"fragment\" />"), "{html}");
}

#[test]
fn leaves_other_comments_alone() {
    let (html, slide) = apply("<p>x</p>\n<!-- just a note -->");
    assert!(html.contains("<!-- just a note -->"));
    assert!(slide.is_empty());
}

#[test]
fn render_merges_repeated_classes_and_replaces_others() {
    let attrs = vec![
        ("class".to_string(), "a".to_string()),
        ("id".to_string(), "x".to_string()),
        ("class".to_string(), "b".to_string()),
        ("id".to_string(), "y".to_string()),
    ];
    assert_eq!(render(&attrs), " class=\"a b\" id=\"y\"");
    assert_eq!(render(&[]), "");
}

#[test]
fn parses_quoted_and_bare_values() {
    let pairs = parse_attrs("  a=\"1 2\" b='x' c=bare  =skipped d=\"open");
    let expected: Vec<(String, String)> = vec![
        ("a".into(), "1 2".into()),
        ("b".into(), "x".into()),
        ("c".into(), "bare".into()),
        ("d".into(), "open".into()),
    ];
    assert_eq!(pairs, expected);
}

#[test]
fn a_comment_closing_inside_its_opener_is_refused() {
    assert!(try_apply("<p>x</p><!--->").is_none());
    assert!(try_apply("<p>x</p><!---->").is_some());
}


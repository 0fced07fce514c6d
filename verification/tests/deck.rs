use aquascope_reveal::deck::{section_of_html, Deck};

#[test]
fn splits_on_isolated_separators() {
    let deck = Deck::parse("a\n\n---\n\nb\n\n--\n\nc\n");
    assert_eq!(deck.slides.len(), 2);
    assert_eq!(deck.slides[0].len(), 1);
    assert_eq!(deck.slides[1].len(), 2);
}

#[test]
fn ignores_separators_in_code() {
    let deck = Deck::parse("a\n\n```text\n\n---\n\n```\n");
    assert_eq!(deck.slides.len(), 1);
}

#[test]
fn ignores_setext_headings() {
    let deck = Deck::parse("Title\n---\n\nbody\n");
    assert_eq!(deck.slides.len(), 1);
    assert!(deck.to_html().contains("<h2>"));
}

#[test]
fn passes_through_raw_html() {
    let deck = Deck::parse("<div class=\"aquascope-embed\" data-x=\"&quot;\"></div>\n");
    assert!(deck.to_html().contains("data-x=\"&quot;\""));
}

#[test]
fn drops_blank_slides_from_leading_and_trailing_separators() {
    let deck = Deck::parse("\n---\n\na\n\n---\n\n");
    assert_eq!(deck.slides, vec![vec!["\na\n".to_string()]]);
}

#[test]
fn a_stack_of_vertical_slides_is_nested() {
    let deck = Deck::parse("a\n\n--\n\nb\n");
    let html = deck.to_html();
    assert_eq!(html, "<section>\n<section>\n<p>a</p>\n</section>\n<section>\n<p>b</p>\n</section>\n</section>\n");
}

#[test]
fn a_tilde_fence_needs_a_matching_close() {
    let deck = Deck::parse("~~~~\n\n---\n\n~~~\n\n---\n\n~~~~\n\nx\n");
    assert_eq!(deck.slides.len(), 1);
}

#[test]
fn a_section_carries_its_slide_attributes() {
    assert_eq!(
        section_of_html("<!-- .slide: class=\"center\" -->\n<h1>T</h1>\n"),
        "<section class=\"center\">\n\n<h1>T</h1>\n</section>\n"
    );
}

#[test]
fn a_deck_whose_comments_cannot_be_applied_is_refused() {
    // A comment closing inside its own opener cannot be cut out of the page.
    let deck = Deck::parse("<p>x</p><!-->\n");
    assert!(deck.try_to_html().is_none());
    let deck = Deck::parse("# A\n\n---\n\n# B\n");
    assert_eq!(deck.try_to_html().unwrap(), deck.to_html());
}

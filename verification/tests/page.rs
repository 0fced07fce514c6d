use aquascope_reveal::page::{
    apply_edits, choose_setting, default_title, escape, page_html, reveal_paths, script_tag,
    stamp, stylesheet_link, Page, CDN, LIVERELOAD_TAG,
};

fn edit(start: usize, end: usize, text: &str) -> (std::ops::Range<usize>, String) {
    (start..end, text.to_string())
}

#[test]
fn edits_apply_back_to_front() {
    let content = "aa\nBLOCK\nbb\nBLOCK\ncc\n";
    let edits = vec![edit(3, 8, "<one/>"), edit(12, 17, "<two/>")];
    assert_eq!(apply_edits(content, edits).unwrap(), "aa\n<one/>\nbb\n<two/>\ncc\n");
    // The order they are given in does not matter for disjoint ranges.
    let edits = vec![edit(12, 17, "<two/>"), edit(3, 8, "<one/>")];
    assert_eq!(apply_edits(content, edits).unwrap(), "aa\n<one/>\nbb\n<two/>\ncc\n");
}

#[test]
fn edits_count_bytes_not_chars() {
    // `é` takes two bytes: byte 3 is the start of `x`.
    let content = "\u{e9}\u{e9}x!";
    assert_eq!(apply_edits(content, vec![edit(4, 5, "y")]).unwrap(), "\u{e9}\u{e9}y!");
    // Byte 1 falls inside the first `é`: `String::replace_range` would panic.
    assert!(apply_edits(content, vec![edit(1, 2, "y")]).is_none());
    // Past the end, and reversed ranges, are refused too.
    assert!(apply_edits(content, vec![edit(5, 7, "y")]).is_none());
    assert!(apply_edits(content, vec![edit(4, 2, "y")]).is_none());
    assert_eq!(apply_edits(content, vec![edit(6, 6, "?")]).unwrap(), "\u{e9}\u{e9}x!?");
    assert_eq!(apply_edits(content, Vec::new()).unwrap(), content);
}

#[test]
fn edits_with_equal_starts_keep_their_order() {
    // Two insertions at the same place: the one given first is applied
    // first, so the one given second ends up in front of it.
    let edits = vec![edit(1, 1, "A"), edit(1, 1, "B")];
    assert_eq!(apply_edits("xy", edits).unwrap(), "xBAy");
}

#[test]
fn settings_prefer_flags_then_front_matter() {
    let s = |x: &str| Some(x.to_string());
    assert_eq!(choose_setting(s("black"), s("league"), "white".to_string()), "black");
    assert_eq!(choose_setting(None, s("league"), "white".to_string()), "league");
    assert_eq!(choose_setting(None, None, "white".to_string()), "white");
}

#[test]
fn the_default_title_is_the_input_stem() {
    assert_eq!(default_title("lectures/ownership.md"), "ownership");
    assert_eq!(default_title("deck.tar.md"), "deck.tar");
    assert_eq!(default_title(".hidden"), ".hidden");
    assert_eq!(default_title("notes"), "notes");
    assert_eq!(default_title("a/.."), "Slides");
    assert_eq!(default_title("/"), "Slides");
}

#[test]
fn reveal_is_vendored_or_from_the_cdn() {
    let (d, p) = reveal_paths(true);
    assert_eq!((d.as_str(), p.as_str()), ("reveal/dist", "reveal/plugin"));
    let (d, p) = reveal_paths(false);
    assert_eq!(d, format!("{CDN}/dist"));
    assert_eq!(p, "https://cdn.jsdelivr.net/npm/reveal.js@5.1.0/plugin");
}

#[test]
fn extra_assets_are_linked_from_assets() {
    assert_eq!(stylesheet_link("x.css"), "  <link rel=\"stylesheet\" href=\"assets/x.css\" />\n");
    assert_eq!(script_tag("x.js"), "  <script src=\"assets/x.js\"></script>\n");
    assert_eq!(LIVERELOAD_TAG, "  <script src=\"aquascope/livereload.js\"></script>\n");
}

#[test]
fn the_page_escapes_its_title_and_holds_the_slides() {
    let page = Page {
        title: "Borrowing <&> Ownership".to_string(),
        reveal: "reveal/dist".to_string(),
        plugin: "reveal/plugin".to_string(),
        theme: "white".to_string(),
        head: "  <!-- head -->\n".to_string(),
        slides: "<section>S</section>\n".to_string(),
        reveal_options: "{\"hash\":true}".to_string(),
        tail: "  <!-- tail -->\n".to_string(),
    };
    let html = page_html(&page);
    assert!(html.starts_with("<!DOCTYPE html>\n<html lang=\"en\">\n"));
    assert!(html.contains("<title>Borrowing &lt;&amp;&gt; Ownership</title>"));
    assert!(html.contains("href=\"reveal/dist/theme/white.css\" id=\"theme\""));
    assert!(html.contains("<div class=\"slides\">\n<section>S</section>\n    </div>"));
    assert!(html.contains("window.AQUASCOPE_REVEAL_OPTIONS = {\"hash\":true};"));
    assert!(html.contains("<script src=\"reveal/plugin/notes/notes.js\"></script>"));
    assert!(html.contains("  <!-- head -->\n</head>"));
    assert!(html.ends_with("  <!-- tail -->\n</body>\n</html>\n"));
}

#[test]
fn escape_writes_entities_for_markup() {
    assert_eq!(escape("a < b && c > d"), "a &lt; b &amp;&amp; c &gt; d");
    assert_eq!(escape("plain"), "plain");
}

#[test]
fn the_stamp_is_the_nanosecond_count() {
    assert_eq!(stamp(Some(0)), "0");
    assert_eq!(stamp(Some(1_700_000_000_123_456_789)), "1700000000123456789");
    assert_eq!(stamp(Some(u128::MAX)), u128::MAX.to_string());
    assert_eq!(stamp(None), "");
}

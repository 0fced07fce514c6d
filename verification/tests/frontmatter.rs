use aquascope_reveal::frontmatter::{locate, newlines, reserved_problem, FrontError, Located};

/// The keys of the block's `revealOptions`, read with serde_yaml.
fn reveal_option_keys(yaml: &str) -> Vec<String> {
    let value: serde_yaml::Value = serde_yaml::from_str(yaml).unwrap();
    match value.get("revealOptions").and_then(|v| v.as_mapping()) {
        Some(map) => map.keys().filter_map(|k| k.as_str().map(str::to_string)).collect(),
        None => Vec::new(),
    }
}

fn located(content: &str) -> Located {
    match locate(content) {
        Ok(l) => l,
        Err(e) => panic!("{}", e.message()),
    }
}

#[test]
fn absent_front_matter_leaves_content_alone() {
    let l = located("# Title\n\n---\n\n# Next\n");
    assert!(l.yaml.is_none());
    // The `---` further down is a slide separator, not a front matter fence.
    assert!(l.body.contains("# Next"));
    assert_eq!(l.body, "# Title\n\n---\n\n# Next\n");
}

#[test]
fn parses_deck_options() {
    let l = located(
        "---\ntitle: Deck\ntheme: black\nrevealOptions:\n  navigationMode: default\n  slideNumber: \"c/t\"\n---\n\n# Slide\n",
    );
    let yaml = l.yaml.unwrap();
    assert_eq!(
        yaml,
        "title: Deck\ntheme: black\nrevealOptions:\n  navigationMode: default\n  slideNumber: \"c/t\"\n"
    );
    assert_eq!(l.body.trim(), "# Slide");
    let keys = reveal_option_keys(&yaml);
    assert_eq!(keys, vec!["navigationMode".to_string(), "slideNumber".to_string()]);
    assert!(reserved_problem(&keys).is_none());
}

#[test]
fn empty_block_is_fine() {
    let l = located("---\n---\n# Slide\n");
    assert!(l.yaml.is_none());
    assert_eq!(l.body.trim(), "# Slide");
    let l = located("---\r\n  \r\n...\r\n# Slide\n");
    assert!(l.yaml.is_none());
    assert_eq!(l.body, "# Slide\n");
}

#[test]
fn rejects_reserved_options() {
    let l = located("---\nrevealOptions:\n  disableLayout: false\n---\n");
    let keys = reveal_option_keys(&l.yaml.unwrap());
    let err = reserved_problem(&keys).unwrap().message();
    assert!(err.contains("disableLayout"), "{err}");
    assert!(err.starts_with("front matter may not set revealOptions.disableLayout: "), "{err}");
}

#[test]
fn rejects_unclosed_and_unknown() {
    assert!(matches!(locate("---\ntitle: Deck\n\n# Slide\n"), Err(FrontError::Unclosed)));
    assert_eq!(
        FrontError::Unclosed.message(),
        "front matter opened with `---` but was never closed"
    );
}

#[test]
fn reserved_options_are_refused_in_their_order() {
    let keys = vec!["plugins".to_string(), "disableLayout".to_string()];
    assert!(reserved_problem(&keys) == Some(FrontError::Reserved(0)));
    let keys = vec!["plugins".to_string()];
    let e = reserved_problem(&keys).unwrap();
    assert_eq!(
        e.message(),
        "front matter may not set revealOptions.plugins: plugins are live JavaScript objects and cannot be expressed in YAML"
    );
    assert!(reserved_problem(&vec!["disablelayout".to_string()]).is_none());
}

#[test]
fn the_block_closes_at_the_first_fence_line_only() {
    let l = located("---\na: 1\n---  \nb\n---\nc\n");
    assert_eq!(l.yaml.as_deref(), Some("a: 1\n"));
    assert_eq!(l.body, "b\n---\nc\n");
    // A fence that does not start the file is not front matter.
    assert!(located(" ---\na\n").yaml.is_none());
    // The closing line may be the last, without a newline.
    let l = located("---\na: 1\n---");
    assert_eq!(l.yaml.as_deref(), Some("a: 1\n"));
    assert_eq!(l.body, "");
}

#[test]
fn the_block_is_counted_in_lines() {
    let source = "---\ntitle: T\n---\n# Slide\n";
    let l = located(source);
    let header = &source[..source.len() - l.body.len()];
    assert_eq!(header, "---\ntitle: T\n---\n");
    assert_eq!(newlines(header), 3);
    assert_eq!(newlines(""), 0);
    assert_eq!(newlines("a\r\nb"), 1);
}

use aquascope_reveal::lint::{check, distance, suggest};

fn chars(s: &str) -> Vec<char> {
    s.chars().collect()
}

#[test]
fn accepts_known_specifiers() {
    let w = check("```aquascope,interpreter,horizontal,run,shouldFail\nfn main() {}\n```\n");
    assert!(w.is_empty(), "{w:?}");
}

#[test]
fn suggests_a_correction() {
    let w = check("```aquascope,interpreter,souldFail\nfn main() {}\n```\n");
    assert_eq!(w.len(), 1, "{w:?}");
    assert!(w[0].contains("`souldFail`"), "{}", w[0]);
    assert!(w[0].contains("did you mean `shouldFail`"), "{}", w[0]);
    assert!(w[0].starts_with("1:"), "{}", w[0]);
}

#[test]
fn checks_operations_and_key_value_config() {
    let w = check("```aquascope,interperter,horizontal=false\nx\n```\n");
    assert_eq!(w.len(), 1, "{w:?}");
    assert!(w[0].contains("did you mean `interpreter`"), "{}", w[0]);
}

#[test]
fn accepts_combined_operations() {
    assert!(check("```aquascope,permissions+interpreter\nx\n```\n").is_empty());
}

#[test]
fn flags_a_bare_fence_and_ignores_other_languages() {
    let w = check("```aquascope\nx\n```\n\n```rust,ignore\ny\n```\n");
    assert_eq!(w.len(), 1, "{w:?}");
    assert!(w[0].contains("no operation"), "{}", w[0]);
}

#[test]
fn ignores_specifiers_inside_a_block() {
    let w = check("```aquascope,interpreter\nlet s = \"```aquascope,nope\";\n```\n");
    assert!(w.is_empty(), "{w:?}");
}

#[test]
fn reports_the_exact_messages() {
    let w = check("text\n```aquascope,zzzzzz,qq\nx\n```\n");
    assert_eq!(
        w,
        vec![
            "2: unknown Aquascope operation `zzzzzz`, expected one of interpreter, permissions".to_string(),
            "2: unknown Aquascope specifier `qq`".to_string(),
        ]
    );
    let w = check("```aquascope\nx\n```\n");
    assert_eq!(
        w,
        vec!["1: ```aquascope has no operation, so the block is left as plain code. Write ```aquascope,interpreter or ```aquascope,permissions".to_string()]
    );
}

#[test]
fn levenshtein_distance() {
    assert_eq!(distance(&chars("kitten"), &chars("sitting")), 3);
    assert_eq!(distance(&chars(""), &chars("abc")), 3);
    assert_eq!(distance(&chars("flaw"), &chars("lawn")), 2);
    assert_eq!(distance(&chars("same"), &chars("same")), 0);
}

#[test]
fn suggests_case_insensitively_and_only_when_close() {
    let known = vec![chars("shouldFail"), chars("stepper")];
    assert_eq!(suggest(&chars("shouldfail"), &known), Some(chars("shouldFail")));
    assert_eq!(suggest(&chars("xyz"), &known), None);
    // Closer than the word is long: a two-letter word never gets a suggestion
    // two edits away.
    assert_eq!(suggest(&chars("ab"), &vec![chars("abcd")]), None);
}

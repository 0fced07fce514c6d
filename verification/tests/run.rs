use aquascope_reveal::run::{
    ansi, ansi_or_fallback, edition, opt_level, plain, program_output, strip_ansi, TIMEOUT_SECS,
};

#[test]
fn strips_escapes_when_conversion_fails() {
    assert_eq!(strip_ansi("\x1b[1m\x1b[91merror\x1b[0m: bad"), "error: bad");
}

#[test]
fn rejects_unknown_flag_values() {
    assert_eq!(opt_level(Some("; rm -rf /")), "0");
    assert_eq!(opt_level(Some("2")), "2");
}

#[test]
fn opt_level_defaults_to_zero() {
    assert_eq!(opt_level(None), "0");
    assert_eq!(opt_level(Some("1")), "1");
    assert_eq!(opt_level(Some("3")), "3");
    assert_eq!(opt_level(Some("4")), "0");
}

#[test]
fn edition_is_one_of_the_known_ones() {
    assert_eq!(edition(None), "2021");
    assert_eq!(edition(Some("2015")), "2015");
    assert_eq!(edition(Some("2018")), "2018");
    assert_eq!(edition(Some("2024")), "2024");
    assert_eq!(edition(Some("2021 --cfg x")), "2021");
}

#[test]
fn plain_escapes_markup() {
    assert_eq!(plain("\x1b[31m<b>hi</b> & co"), "\x1b[31m&lt;b&gt;hi&lt;/b&gt; &amp; co");
    assert_eq!(plain(""), "");
}

#[test]
fn strip_ansi_keeps_plain_text_and_drops_an_unfinished_sequence() {
    assert_eq!(strip_ansi("no codes here"), "no codes here");
    assert_eq!(strip_ansi("ok\x1b[3"), "ok");
}

#[test]
fn fallback_escapes_the_stripped_text() {
    assert_eq!(ansi_or_fallback("\x1b[1m<x>\x1b[0m", None), "&lt;x&gt;");
    assert_eq!(ansi_or_fallback("ignored", Some("<b>kept</b>".to_string())), "<b>kept</b>");
}

#[test]
fn colours_become_theme_variables() {
    let html = ansi("\x1b[31merror\x1b[0m: <bad>");
    assert!(html.contains("var(--aq-ansi-"), "{html}");
    assert!(html.contains("error"), "{html}");
    assert!(!html.contains('\x1b'), "{html}");
    assert!(!html.contains("<bad>"), "{html}");
}

#[test]
fn a_killed_program_says_so_on_its_own_line() {
    assert_eq!(program_output("e", "o", false, TIMEOUT_SECS), "eo");
    assert_eq!(
        program_output("", "partial", true, 10),
        "partial\nTimeout: the program was killed after 10 seconds.\n"
    );
    assert_eq!(
        program_output("", "line\n", true, 10),
        "line\nTimeout: the program was killed after 10 seconds.\n"
    );
    assert_eq!(program_output("", "", true, 3), "Timeout: the program was killed after 3 seconds.\n");
}

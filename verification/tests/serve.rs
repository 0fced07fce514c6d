use std::path::{Path, PathBuf};

use aquascope_reveal::serve::{
    content_type, header, resolve_file, served_file, percent_decode, post_route, request_line, request_path, resolve,
    response_head, route, unescape, Header, PostRoute, Route, MAX_BODY, RUN_ENDPOINT,
};

fn resolved(root: &str, target: &str) -> Option<PathBuf> {
    resolve(root, target).map(PathBuf::from)
}

#[test]
fn rejects_traversal() {
    let root = "/deck";
    assert!(resolved(root, "/../etc/passwd").is_none());
    assert!(resolved(root, "/img/../../etc/passwd").is_none());
    // Encoded traversal is decoded before the components are inspected.
    assert!(resolved(root, "/%2e%2e/etc/passwd").is_none());
}

#[test]
fn maps_normal_paths() {
    let root = Path::new("/deck");
    assert_eq!(resolved("/deck", "/img/a.svg").unwrap(), root.join("img/a.svg"));
    // Query strings and fragments are not part of the path.
    assert_eq!(
        resolved("/deck", "/build-stamp.txt?t=1").unwrap(),
        root.join("build-stamp.txt")
    );
    assert_eq!(resolved("/deck", "/a%20b.png").unwrap(), root.join("a b.png"));
}

#[test]
fn decodes_percent_escapes() {
    assert_eq!(percent_decode("/a%20b"), "/a b");
    // A stray percent is left alone rather than swallowing the next chars.
    assert_eq!(percent_decode("/100%"), "/100%");
    assert_eq!(percent_decode("/%zz"), "/%zz");
}

#[test]
fn types_the_assets_a_deck_uses() {
    assert_eq!(content_type("a.woff2"), "font/woff2");
    assert_eq!(content_type("a.svg"), "image/svg+xml");
    assert_eq!(content_type("a"), "application/octet-stream");
}

#[test]
fn resolve_joins_exactly_the_named_components() {
    assert_eq!(resolve("/deck", "/img/./a.svg").unwrap(), "/deck/img/a.svg");
    assert_eq!(resolve("/deck/", "//img//a.svg#top").unwrap(), "/deck/img/a.svg");
    assert_eq!(resolve("/deck", "/").unwrap(), "/deck");
    assert_eq!(resolve("", "/a").unwrap(), "a");
    assert_eq!(resolve("/deck", "/...").unwrap(), "/deck/...");
    assert!(resolve("/deck", "/a/..").is_none());
    assert!(resolve("/deck", "/..%2fetc").is_none());
}

#[test]
fn percent_escapes_read_as_from_str_radix_reads_them() {
    assert_eq!(unescape("%41%4a%4A"), b"AJJ".to_vec());
    // A `+` sign is accepted before the digit.
    assert_eq!(unescape("%+f"), vec![0x0f]);
    assert_eq!(unescape("%-1"), b"%-1".to_vec());
    assert_eq!(percent_decode("%C3%A9"), "\u{e9}");
    // Ill-formed UTF-8 after decoding becomes the replacement character.
    assert_eq!(percent_decode("a%FFb"), "a\u{fffd}b");
    assert_eq!(percent_decode("%2"), "%2");
}

#[test]
fn the_path_stops_at_query_or_fragment() {
    assert_eq!(request_path("/a?b#c"), "/a");
    assert_eq!(request_path("/a#b?c"), "/a");
    assert_eq!(request_path("/plain"), "/plain");
}

#[test]
fn content_type_follows_path_extension() {
    assert_eq!(content_type("/deck/index.html"), "text/html; charset=utf-8");
    assert_eq!(content_type("x/y.mjs"), "text/javascript; charset=utf-8");
    assert_eq!(content_type("x/y.map"), "application/json; charset=utf-8");
    assert_eq!(content_type("x/.css"), "application/octet-stream");
    assert_eq!(content_type("x/a.css/."), "text/css; charset=utf-8");
    assert_eq!(content_type("x/a.css/.."), "application/octet-stream");
    assert_eq!(content_type("photo.JPG"), "application/octet-stream");
    assert_eq!(content_type("a.tar.wasm"), "application/wasm");
    assert_eq!(content_type(""), "application/octet-stream");
}

#[test]
fn response_head_is_uncached_and_closes() {
    assert_eq!(
        response_head(404, "text/plain", 9),
        "HTTP/1.1 404 Not Found\r\nContent-Type: text/plain\r\nContent-Length: 9\r\n\
         Cache-Control: no-store\r\nConnection: close\r\n\r\n"
    );
    assert!(response_head(200, "image/png", 0).starts_with("HTTP/1.1 200 OK\r\n"));
    assert!(response_head(413, "text/plain", 1).starts_with("HTTP/1.1 413 Payload Too Large"));
    assert!(response_head(405, "text/plain", 1).starts_with("HTTP/1.1 405 Method Not Allowed"));
    assert!(response_head(403, "text/plain", 1).starts_with("HTTP/1.1 403 Forbidden"));
}

#[test]
fn headers_are_read_for_their_length() {
    assert!(header("\r\n") == Header::End);
    assert!(header("Content-Length: 42\r\n") == Header::Length(42));
    assert!(header("content-LENGTH:+7") == Header::Length(7));
    assert!(header("Content-Length: seven") == Header::Length(0));
    assert!(header("Content-Length: 99999999999999999999999999") == Header::Length(0));
    assert!(header("Content-Type: text/plain") == Header::Other);
    assert!(header("no colon here") == Header::Other);
}

#[test]
fn request_lines_route_as_the_server_answers_them() {
    let (m, t) = request_line("GET /a.svg HTTP/1.1\r\n");
    assert_eq!((m.as_str(), t.as_str()), ("GET", "/a.svg"));
    let (m, t) = request_line("  \r\n");
    assert_eq!((m.as_str(), t.as_str()), ("", "/"));

    assert!(matches!(route("/deck", "GET /img/a.svg HTTP/1.1"), Route::File(p, false) if p == "/deck/img/a.svg"));
    assert!(matches!(route("/deck", "HEAD / HTTP/1.1"), Route::File(p, true) if p == "/deck"));
    assert!(matches!(route("/deck", "GET /../x HTTP/1.1"), Route::Forbidden(false)));
    assert!(matches!(route("/deck", "DELETE / HTTP/1.1"), Route::NotAllowed));
    assert!(matches!(route("/deck", "POST /evaluate.json HTTP/1.1"), Route::Post(t) if t == "/evaluate.json"));
}

#[test]
fn posts_go_to_the_runner_only() {
    assert!(post_route(RUN_ENDPOINT, 10) == PostRoute::Run);
    assert!(post_route("/evaluate.json?x=1", MAX_BODY) == PostRoute::Run);
    assert!(post_route("/evaluate.json", MAX_BODY + 1) == PostRoute::TooLarge);
    assert!(post_route("/other", 1) == PostRoute::NotFound);
}

#[test]
fn a_directory_is_served_by_its_index() {
    assert_eq!(served_file("/deck", true), "/deck/index.html");
    assert_eq!(served_file("/deck/", true), "/deck/index.html");
    assert_eq!(served_file("/deck/a.svg", false), "/deck/a.svg");
    assert_eq!(resolve_file("/deck", "/img?x", true).unwrap(), "/deck/img/index.html");
    assert_eq!(resolve_file("/deck", "/img/a.svg", false).unwrap(), "/deck/img/a.svg");
    assert!(resolve_file("/deck", "/%2e%2e/x", true).is_none());
}

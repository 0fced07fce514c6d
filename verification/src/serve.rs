//! The preview server's decisions: which file a request names, what type it
//! is served as, and what the response head says.
//!
//! Reading sockets and files is left to the caller; everything here maps
//! request text to the answer's parts. The server is correct about paths
//! first of all: a request can name a file below the served root and
//! nothing else, because a `..` component is refused outright rather than
//! resolved and compared.

use vstd::prelude::*;
use vstd::utf8::{decode_utf8, encode_utf8, valid_utf8};
use crate::lines::{split_on, split_range, views};
use crate::text::{
    chars_of, decimal, eq_str, is_ws, is_ws_char, push_all, push_decimal, push_str, skip_ws_back, starts_with, string_of, trim,
    trim_end, trim_range,
};

verus! {

/// Where the editor posts snippets. The path is the playground's, because
/// the editor's default is the playground and it only varies the origin.
pub const RUN_ENDPOINT: &'static str = "/evaluate.json";

/// A snippet is a slide's worth of code. Anything larger is not a snippet.
pub const MAX_BODY: usize = 1048576;

/// The end of the path part of a request target: the first `?` or `#` at or
/// after `i`, or the end.
pub open spec fn path_end(t: Seq<char>, i: int) -> int
    decreases t.len() - i,
{
    if i < 0 || i >= t.len() || t[i] == '?' || t[i] == '#' {
        i
    } else {
        path_end(t, i + 1)
    }
}

/// The path a request target names: what comes before its query string or
/// fragment.
pub open spec fn path_of(target: Seq<char>) -> Seq<char> {
    target.take(path_end(target, 0))
}

proof fn lemma_path_end_bounds(t: Seq<char>, i: int)
    requires
        0 <= i <= t.len(),
    ensures
        i <= path_end(t, i) <= t.len(),
    decreases t.len() - i,
{
    if i < t.len() && t[i] != '?' && t[i] != '#' {
        lemma_path_end_bounds(t, i + 1);
    }
}

/// The path part of a request target.
pub fn request_path(target: &str) -> (r: String)
    ensures
        r@ == path_of(target@),
{
    let t = chars_of(target);
    let mut i: usize = 0;
    while i < t.len() && t[i] != '?' && t[i] != '#'
        invariant
            i <= t.len(),
            path_end(t@, i as int) == path_end(t@, 0),
        decreases t.len() - i,
    {
        i = i + 1;
    }
    let mut out: Vec<char> = Vec::new();
    crate::text::push_range(&mut out, &t, 0, i);
    assert(out@ =~= path_of(target@));
    string_of(&out)
}

/// Whether `b` is an ASCII hexadecimal digit.
pub open spec fn is_hex_byte(b: u8) -> bool {
    (0x30 <= b <= 0x39) || (0x41 <= b <= 0x46) || (0x61 <= b <= 0x66)
}

/// The value of a hexadecimal digit.
pub open spec fn hex_value(b: u8) -> int {
    if b <= 0x39 {
        b - 0x30
    } else if b <= 0x46 {
        b - 0x41 + 10
    } else {
        b - 0x61 + 10
    }
}

/// The byte two characters after a `%` stand for, read as `u8::from_str_radix`
/// reads them in base 16: an optional `+`, then hexadecimal digits.
pub open spec fn hex_pair(x: u8, y: u8) -> Option<u8> {
    if x == 0x2b && is_hex_byte(y) {
        Some(hex_value(y) as u8)
    } else if is_hex_byte(x) && is_hex_byte(y) {
        Some((16 * hex_value(x) + hex_value(y)) as u8)
    } else {
        None
    }
}

/// `b` from index `i` on with each `%` that has two more bytes after it
/// replaced by the byte they spell, where they spell one. Anything else,
/// a stray `%` included, is kept as it is.
pub open spec fn unescape_from(b: Seq<u8>, i: int) -> Seq<u8>
    decreases b.len() - i,
{
    if i < 0 || i >= b.len() {
        Seq::empty()
    } else if b[i] == 0x25 && i + 2 < b.len() && hex_pair(b[i + 1], b[i + 2]) is Some {
        seq![hex_pair(b[i + 1], b[i + 2])->0] + unescape_from(b, i + 3)
    } else {
        seq![b[i]] + unescape_from(b, i + 1)
    }
}

fn hex_digit_value(b: u8) -> (r: Option<u8>)
    ensures
        match r {
            Some(v) => is_hex_byte(b) && v == hex_value(b),
            None => !is_hex_byte(b),
        },
{
    if 0x30 <= b && b <= 0x39 {
        Some(b - 0x30)
    } else if 0x41 <= b && b <= 0x46 {
        Some(b - 0x41 + 10)
    } else if 0x61 <= b && b <= 0x66 {
        Some(b - 0x61 + 10)
    } else {
        None
    }
}

fn hex_pair_exec(x: u8, y: u8) -> (r: Option<u8>)
    ensures
        r == hex_pair(x, y),
{
    match hex_digit_value(y) {
        None => None,
        Some(low) => {
            if x == 0x2b {
                Some(low)
            } else {
                match hex_digit_value(x) {
                    None => None,
                    Some(high) => Some(16 * high + low),
                }
            }
        },
    }
}

/// The bytes of `s` with its percent escapes decoded.
pub fn unescape(s: &str) -> (r: Vec<u8>)
    ensures
        r@ == unescape_from(encode_utf8(s@), 0),
{
    let b = s.as_bytes();
    let n = b.len();
    let mut out: Vec<u8> = Vec::new();
    let mut i: usize = 0;
    assert(out@ + unescape_from(b@, 0) =~= unescape_from(b@, 0));
    while i < n
        invariant
            n == b@.len(),
            b@ == encode_utf8(s@),
            i <= n,
            out@ + unescape_from(b@, i as int) == unescape_from(b@, 0),
        decreases n - i,
    {
        let ghost before = out@;
        if b[i] == 0x25 && n - i > 2 {
            match hex_pair_exec(b[i + 1], b[i + 2]) {
                Some(v) => {
                    out.push(v);
                    assert(out@ + unescape_from(b@, i + 3) =~= before + unescape_from(
                        b@,
                        i as int,
                    ));
                    i = i + 3;
                    continue;
                },
                None => {},
            }
        }
        out.push(b[i]);
        assert(out@ + unescape_from(b@, i + 1) =~= before + unescape_from(b@, i as int));
        i = i + 1;
    }
    assert(out@ + Seq::<u8>::empty() =~= out@);
    out
}

/// What `String::from_utf8_lossy` makes of `bytes`: their text, with each
/// ill-formed stretch replaced by U+FFFD.
pub uninterp spec fn lossy_text(bytes: Seq<u8>) -> Seq<char>;

/// Wraps `String::from_utf8_lossy(bytes).into_owned()`. std documents that
/// well-formed UTF-8 comes back as the text it encodes; how ill-formed
/// stretches are replaced is only named, by [`lossy_text`].
#[verifier::external_body]
fn from_utf8_lossy(bytes: &[u8]) -> (r: String)
    ensures
        r@ == lossy_text(bytes@),
        valid_utf8(bytes@) ==> r@ == decode_utf8(bytes@),
{
    String::from_utf8_lossy(bytes).into_owned()
}

/// `s` with its percent escapes decoded, read back as text.
pub fn percent_decode(s: &str) -> (r: String)
    ensures
        r@ == lossy_text(unescape_from(encode_utf8(s@), 0)),
        valid_utf8(unescape_from(encode_utf8(s@), 0)) ==> r@ == decode_utf8(
            unescape_from(encode_utf8(s@), 0),
        ),
{
    let bytes = unescape(s);
    from_utf8_lossy(bytes.as_slice())
}

/// `path` with `part` pushed onto it as `PathBuf::push` does for a relative
/// part: a `/` goes between them unless `path` is empty or already ends in
/// one.
pub open spec fn push_part(path: Seq<char>, part: Seq<char>) -> Seq<char> {
    if path.len() > 0 && path.last() != '/' {
        path + seq!['/'] + part
    } else {
        path + part
    }
}

/// Whether a piece of a `/`-separated path is a normal component: neither
/// empty nor `.` nor `..`.
pub open spec fn is_normal(piece: Seq<char>) -> bool {
    piece.len() != 0 && piece != seq!['.'] && piece != seq!['.', '.']
}

/// `root` with the normal components among `pieces` pushed onto it in
/// order. Empty pieces and `.` name no directory and are passed over.
pub open spec fn push_parts(root: Seq<char>, pieces: Seq<Seq<char>>) -> Seq<char>
    decreases pieces.len(),
{
    if pieces.len() == 0 {
        root
    } else if is_normal(pieces.last()) {
        push_part(push_parts(root, pieces.drop_last()), pieces.last())
    } else {
        push_parts(root, pieces.drop_last())
    }
}

/// Whether one of `pieces` is `..`.
pub open spec fn climbs(pieces: Seq<Seq<char>>) -> bool {
    exists|i: int| 0 <= i < pieces.len() && pieces[i] == seq!['.', '.']
}

/// The file a decoded request path names below `root`, or `None` where one
/// of its components is `..`.
pub open spec fn resolve_spec(root: Seq<char>, decoded: Seq<char>) -> Option<Seq<char>> {
    let pieces = split_on(decoded, '/');
    if climbs(pieces) {
        None
    } else {
        Some(push_parts(root, pieces))
    }
}

fn is_dot_dot(piece: &Vec<char>) -> (r: bool)
    ensures
        r == (piece@ == seq!['.', '.']),
{
    let r = piece.len() == 2 && piece[0] == '.' && piece[1] == '.';
    if r {
        assert(piece@ =~= seq!['.', '.']);
    }
    r
}

fn is_normal_exec(piece: &Vec<char>) -> (r: bool)
    ensures
        r == is_normal(piece@),
{
    if piece.len() == 0 {
        return false;
    }
    if piece.len() == 1 && piece[0] == '.' {
        assert(piece@ =~= seq!['.']);
        return false;
    }
    if is_dot_dot(piece) {
        return false;
    }
    assert(piece@ != seq!['.']) by {
        if piece@ == seq!['.'] {
            assert(piece@.len() == 1);
        }
    }
    true
}

/// Maps an already decoded request path onto a file below `root`, or
/// `None` where it tries to leave `root`.
pub fn resolve_decoded(root: &str, decoded: &str) -> (r: Option<String>)
    ensures
        match r {
            Some(p) => resolve_spec(root@, decoded@) == Some(p@),
            None => resolve_spec(root@, decoded@) is None,
        },
{
    let d = chars_of(decoded);
    let pieces = split_range(&d, 0, d.len(), '/');
    assert(d@.subrange(0, d@.len() as int) =~= d@);
    let ghost ps = split_on(decoded@, '/');
    let mut out = chars_of(root);
    let mut k: usize = 0;
    while k < pieces.len()
        invariant
            views(pieces@) == ps,
            ps == split_on(decoded@, '/'),
            k <= pieces.len(),
            out@ == push_parts(root@, ps.take(k as int)),
            !climbs(ps.take(k as int)),
        decreases pieces.len() - k,
    {
        let piece = &pieces[k];
        assert(ps[k as int] == piece@);
        if is_dot_dot(piece) {
            assert(climbs(ps));
            return None;
        }
        assert(ps.take(k + 1).drop_last() =~= ps.take(k as int));
        if is_normal_exec(piece) {
            let n = out.len();
            if n > 0 && out[n - 1] != '/' {
                out.push('/');
            }
            push_all(&mut out, piece);
        }
        assert(out@ =~= push_parts(root@, ps.take(k + 1)));
        assert(!climbs(ps.take(k + 1))) by {
            if climbs(ps.take(k + 1)) {
                let i = choose|i: int| 0 <= i < k + 1 && #[trigger] ps.take(k + 1)[i] == seq!['.', '.'];
                if i < k {
                    assert(ps.take(k as int)[i] == seq!['.', '.']);
                }
            }
        }
        k = k + 1;
    }
    assert(ps.take(pieces.len() as int) =~= ps);
    Some(string_of(&out))
}

/// Maps a request target onto a file below `root`, or `None` where it
/// tries to escape. The query string and fragment are dropped and percent
/// escapes decoded before the components are looked at, so an encoded
/// `..` is refused too. Whether the file is a directory, which would
/// serve its `index.html`, is for the caller to ask the disk.
pub fn resolve(root: &str, target: &str) -> (r: Option<String>)
    ensures
        match r {
            Some(p) => resolve_spec(
                root@,
                lossy_text(unescape_from(encode_utf8(path_of(target@)), 0)),
            ) == Some(p@),
            None => resolve_spec(
                root@,
                lossy_text(unescape_from(encode_utf8(path_of(target@)), 0)),
            ) is None,
        },
{
    let path = request_path(target);
    let decoded = percent_decode(path.as_str());
    resolve_decoded(root, decoded.as_str())
}

/// The file a resolved path is served from: the `index.html` inside it
/// where the path names a directory, pushed as `PathBuf::push` pushes it,
/// and the path itself otherwise.
pub open spec fn served_file_spec(path: Seq<char>, is_dir: bool) -> Seq<char> {
    if is_dir {
        push_part(path, "index.html"@)
    } else {
        path
    }
}

/// The file a resolved path is served from, given whether the path names a
/// directory on disk.
pub fn served_file(path: &str, is_dir: bool) -> (r: String)
    ensures
        r@ == served_file_spec(path@, is_dir),
{
    let mut out = chars_of(path);
    if is_dir {
        let n = out.len();
        if n > 0 && out[n - 1] != '/' {
            out.push('/');
        }
        push_str(&mut out, "index.html");
    }
    string_of(&out)
}

/// Maps a request target onto the file served for it below `root`, or
/// `None` where it tries to escape. `is_dir` is whether the path the target
/// resolves to names a directory, which the caller reads from the disk:
/// then the directory's `index.html` is served.
pub fn resolve_file(root: &str, target: &str, is_dir: bool) -> (r: Option<String>)
    ensures
        match r {
            Some(p) => resolve_spec(root@, decoded_path(target@)) is Some && p@ == served_file_spec(
                resolve_spec(root@, decoded_path(target@))->0,
                is_dir,
            ),
            None => resolve_spec(root@, decoded_path(target@)) is None,
        },
{
    match resolve(root, target) {
        Some(q) => Some(served_file(q.as_str(), is_dir)),
        None => None,
    }
}

/// The file name a path ends in: its last component, when that is a normal
/// one. Empty pieces and `.` are passed over, as `Path::components` does.
pub open spec fn file_name(pieces: Seq<Seq<char>>) -> Option<Seq<char>>
    decreases pieces.len(),
{
    if pieces.len() == 0 {
        None
    } else if pieces.last().len() == 0 || pieces.last() == seq!['.'] {
        file_name(pieces.drop_last())
    } else if pieces.last() == seq!['.', '.'] {
        None
    } else {
        Some(pieces.last())
    }
}

/// The index of the last `.` in `s`.
pub open spec fn last_dot(s: Seq<char>) -> Option<int>
    decreases s.len(),
{
    if s.len() == 0 {
        None
    } else if s.last() == '.' {
        Some(s.len() - 1)
    } else {
        last_dot(s.drop_last())
    }
}

/// The extension of a file name, as `Path::extension` gives it: what
/// follows the last `.`, where that dot is not the name's first character.
pub open spec fn extension_of(name: Seq<char>) -> Option<Seq<char>> {
    match last_dot(name) {
        Some(i) => if i == 0 {
            None
        } else {
            Some(name.skip(i + 1))
        },
        None => None,
    }
}

/// The extension of the file a path names, empty where it has none.
pub open spec fn path_extension(path: Seq<char>) -> Seq<char> {
    match file_name(split_on(path, '/')) {
        Some(name) => match extension_of(name) {
            Some(e) => e,
            None => Seq::empty(),
        },
        None => Seq::empty(),
    }
}

/// The content type a file with extension `ext` is served as.
pub open spec fn mime_of(ext: Seq<char>) -> Seq<char> {
    if ext == "html"@ {
        "text/html; charset=utf-8"@
    } else if ext == "css"@ {
        "text/css; charset=utf-8"@
    } else if ext == "js"@ || ext == "mjs"@ {
        "text/javascript; charset=utf-8"@
    } else if ext == "json"@ || ext == "map"@ {
        "application/json; charset=utf-8"@
    } else if ext == "txt"@ {
        "text/plain; charset=utf-8"@
    } else if ext == "svg"@ {
        "image/svg+xml"@
    } else if ext == "png"@ {
        "image/png"@
    } else if ext == "jpg"@ || ext == "jpeg"@ {
        "image/jpeg"@
    } else if ext == "gif"@ {
        "image/gif"@
    } else if ext == "ico"@ {
        "image/x-icon"@
    } else if ext == "webp"@ {
        "image/webp"@
    } else if ext == "woff2"@ {
        "font/woff2"@
    } else if ext == "woff"@ {
        "font/woff"@
    } else if ext == "ttf"@ {
        "font/ttf"@
    } else if ext == "otf"@ {
        "font/otf"@
    } else if ext == "eot"@ {
        "application/vnd.ms-fontobject"@
    } else if ext == "wasm"@ {
        "application/wasm"@
    } else {
        "application/octet-stream"@
    }
}

/// The extensions a deck's assets come with, each with the content type a
/// browser needs for it.
pub open spec fn mime_table() -> Seq<(Seq<char>, Seq<char>)> {
    seq![
        ("html"@, "text/html; charset=utf-8"@),
        ("css"@, "text/css; charset=utf-8"@),
        ("js"@, "text/javascript; charset=utf-8"@),
        ("mjs"@, "text/javascript; charset=utf-8"@),
        ("json"@, "application/json; charset=utf-8"@),
        ("map"@, "application/json; charset=utf-8"@),
        ("txt"@, "text/plain; charset=utf-8"@),
        ("svg"@, "image/svg+xml"@),
        ("png"@, "image/png"@),
        ("jpg"@, "image/jpeg"@),
        ("jpeg"@, "image/jpeg"@),
        ("gif"@, "image/gif"@),
        ("ico"@, "image/x-icon"@),
        ("webp"@, "image/webp"@),
        ("woff2"@, "font/woff2"@),
        ("woff"@, "font/woff"@),
        ("ttf"@, "font/ttf"@),
        ("otf"@, "font/otf"@),
        ("eot"@, "application/vnd.ms-fontobject"@),
        ("wasm"@, "application/wasm"@),
    ]
}

/// Each extension of the table is served with its content type, so that a
/// browser runs scripts, applies stylesheets and loads fonts and images;
/// any other extension, or none, is served as opaque bytes.
pub proof fn lemma_assets_are_served_with_their_types(ext: Seq<char>)
    ensures
        forall|i: int|
            0 <= i < mime_table().len() ==> #[trigger] mime_of(mime_table()[i].0)
                == mime_table()[i].1,
        (forall|i: int| 0 <= i < mime_table().len() ==> #[trigger] mime_table()[i].0 != ext)
            ==> mime_of(ext) == "application/octet-stream"@,
{
    reveal_strlit("application/json; charset=utf-8");
    reveal_strlit("application/octet-stream");
    reveal_strlit("application/vnd.ms-fontobject");
    reveal_strlit("application/wasm");
    reveal_strlit("css");
    reveal_strlit("eot");
    reveal_strlit("font/otf");
    reveal_strlit("font/ttf");
    reveal_strlit("font/woff");
    reveal_strlit("font/woff2");
    reveal_strlit("gif");
    reveal_strlit("html");
    reveal_strlit("ico");
    reveal_strlit("image/gif");
    reveal_strlit("image/jpeg");
    reveal_strlit("image/png");
    reveal_strlit("image/svg+xml");
    reveal_strlit("image/webp");
    reveal_strlit("image/x-icon");
    reveal_strlit("jpeg");
    reveal_strlit("jpg");
    reveal_strlit("js");
    reveal_strlit("json");
    reveal_strlit("map");
    reveal_strlit("mjs");
    reveal_strlit("otf");
    reveal_strlit("png");
    reveal_strlit("svg");
    reveal_strlit("text/css; charset=utf-8");
    reveal_strlit("text/html; charset=utf-8");
    reveal_strlit("text/javascript; charset=utf-8");
    reveal_strlit("text/plain; charset=utf-8");
    reveal_strlit("ttf");
    reveal_strlit("txt");
    reveal_strlit("wasm");
    reveal_strlit("webp");
    reveal_strlit("woff");
    reveal_strlit("woff2");
    assert("html"@.len() == 4 && "html"@[0] == 'h' && "html"@[1] == 't' && "html"@[2] == 'm' && "html"@[3] == 'l');
    assert("css"@.len() == 3 && "css"@[0] == 'c' && "css"@[1] == 's' && "css"@[2] == 's');
    assert("js"@.len() == 2 && "js"@[0] == 'j' && "js"@[1] == 's');
    assert("mjs"@.len() == 3 && "mjs"@[0] == 'm' && "mjs"@[1] == 'j' && "mjs"@[2] == 's');
    assert("json"@.len() == 4 && "json"@[0] == 'j' && "json"@[1] == 's' && "json"@[2] == 'o' && "json"@[3] == 'n');
    assert("map"@.len() == 3 && "map"@[0] == 'm' && "map"@[1] == 'a' && "map"@[2] == 'p');
    assert("txt"@.len() == 3 && "txt"@[0] == 't' && "txt"@[1] == 'x' && "txt"@[2] == 't');
    assert("svg"@.len() == 3 && "svg"@[0] == 's' && "svg"@[1] == 'v' && "svg"@[2] == 'g');
    assert("png"@.len() == 3 && "png"@[0] == 'p' && "png"@[1] == 'n' && "png"@[2] == 'g');
    assert("jpg"@.len() == 3 && "jpg"@[0] == 'j' && "jpg"@[1] == 'p' && "jpg"@[2] == 'g');
    assert("jpeg"@.len() == 4 && "jpeg"@[0] == 'j' && "jpeg"@[1] == 'p' && "jpeg"@[2] == 'e' && "jpeg"@[3] == 'g');
    assert("gif"@.len() == 3 && "gif"@[0] == 'g' && "gif"@[1] == 'i' && "gif"@[2] == 'f');
    assert("ico"@.len() == 3 && "ico"@[0] == 'i' && "ico"@[1] == 'c' && "ico"@[2] == 'o');
    assert("webp"@.len() == 4 && "webp"@[0] == 'w' && "webp"@[1] == 'e' && "webp"@[2] == 'b' && "webp"@[3] == 'p');
    assert("woff2"@.len() == 5 && "woff2"@[0] == 'w' && "woff2"@[1] == 'o' && "woff2"@[2] == 'f' && "woff2"@[3] == 'f' && "woff2"@[4] == '2');
    assert("woff"@.len() == 4 && "woff"@[0] == 'w' && "woff"@[1] == 'o' && "woff"@[2] == 'f' && "woff"@[3] == 'f');
    assert("ttf"@.len() == 3 && "ttf"@[0] == 't' && "ttf"@[1] == 't' && "ttf"@[2] == 'f');
    assert("otf"@.len() == 3 && "otf"@[0] == 'o' && "otf"@[1] == 't' && "otf"@[2] == 'f');
    assert("eot"@.len() == 3 && "eot"@[0] == 'e' && "eot"@[1] == 'o' && "eot"@[2] == 't');
    assert("wasm"@.len() == 4 && "wasm"@[0] == 'w' && "wasm"@[1] == 'a' && "wasm"@[2] == 's' && "wasm"@[3] == 'm');
    assert(mime_of("html"@) == "text/html; charset=utf-8"@);
    assert(mime_of("css"@) == "text/css; charset=utf-8"@);
    assert(mime_of("js"@) == "text/javascript; charset=utf-8"@);
    assert(mime_of("mjs"@) == "text/javascript; charset=utf-8"@);
    assert(mime_of("json"@) == "application/json; charset=utf-8"@);
    assert(mime_of("map"@) == "application/json; charset=utf-8"@);
    assert(mime_of("txt"@) == "text/plain; charset=utf-8"@);
    assert(mime_of("svg"@) == "image/svg+xml"@);
    assert(mime_of("png"@) == "image/png"@);
    assert(mime_of("jpg"@) == "image/jpeg"@);
    assert(mime_of("jpeg"@) == "image/jpeg"@);
    assert(mime_of("gif"@) == "image/gif"@);
    assert(mime_of("ico"@) == "image/x-icon"@);
    assert(mime_of("webp"@) == "image/webp"@);
    assert(mime_of("woff2"@) == "font/woff2"@);
    assert(mime_of("woff"@) == "font/woff"@);
    assert(mime_of("ttf"@) == "font/ttf"@);
    assert(mime_of("otf"@) == "font/otf"@);
    assert(mime_of("eot"@) == "application/vnd.ms-fontobject"@);
    assert(mime_of("wasm"@) == "application/wasm"@);
    assert forall|i: int| 0 <= i < mime_table().len() implies #[trigger] mime_of(
        mime_table()[i].0,
    ) == mime_table()[i].1 by {
        if i == 0 {
            assert(mime_table()[0].0 == "html"@);
        }
        if i == 1 {
            assert(mime_table()[1].0 == "css"@);
        }
        if i == 2 {
            assert(mime_table()[2].0 == "js"@);
        }
        if i == 3 {
            assert(mime_table()[3].0 == "mjs"@);
        }
        if i == 4 {
            assert(mime_table()[4].0 == "json"@);
        }
        if i == 5 {
            assert(mime_table()[5].0 == "map"@);
        }
        if i == 6 {
            assert(mime_table()[6].0 == "txt"@);
        }
        if i == 7 {
            assert(mime_table()[7].0 == "svg"@);
        }
        if i == 8 {
            assert(mime_table()[8].0 == "png"@);
        }
        if i == 9 {
            assert(mime_table()[9].0 == "jpg"@);
        }
        if i == 10 {
            assert(mime_table()[10].0 == "jpeg"@);
        }
        if i == 11 {
            assert(mime_table()[11].0 == "gif"@);
        }
        if i == 12 {
            assert(mime_table()[12].0 == "ico"@);
        }
        if i == 13 {
            assert(mime_table()[13].0 == "webp"@);
        }
        if i == 14 {
            assert(mime_table()[14].0 == "woff2"@);
        }
        if i == 15 {
            assert(mime_table()[15].0 == "woff"@);
        }
        if i == 16 {
            assert(mime_table()[16].0 == "ttf"@);
        }
        if i == 17 {
            assert(mime_table()[17].0 == "otf"@);
        }
        if i == 18 {
            assert(mime_table()[18].0 == "eot"@);
        }
        if i == 19 {
            assert(mime_table()[19].0 == "wasm"@);
        }
    }
    if forall|i: int| 0 <= i < mime_table().len() ==> #[trigger] mime_table()[i].0 != ext {
        assert(mime_table()[0].0 != ext);
        assert(mime_table()[1].0 != ext);
        assert(mime_table()[2].0 != ext);
        assert(mime_table()[3].0 != ext);
        assert(mime_table()[4].0 != ext);
        assert(mime_table()[5].0 != ext);
        assert(mime_table()[6].0 != ext);
        assert(mime_table()[7].0 != ext);
        assert(mime_table()[8].0 != ext);
        assert(mime_table()[9].0 != ext);
        assert(mime_table()[10].0 != ext);
        assert(mime_table()[11].0 != ext);
        assert(mime_table()[12].0 != ext);
        assert(mime_table()[13].0 != ext);
        assert(mime_table()[14].0 != ext);
        assert(mime_table()[15].0 != ext);
        assert(mime_table()[16].0 != ext);
        assert(mime_table()[17].0 != ext);
        assert(mime_table()[18].0 != ext);
        assert(mime_table()[19].0 != ext);
    }
}

fn mime_exec(ext: &Vec<char>) -> (r: &'static str)
    ensures
        r@ == mime_of(ext@),
{
    if eq_str(ext, "html") {
        "text/html; charset=utf-8"
    } else if eq_str(ext, "css") {
        "text/css; charset=utf-8"
    } else if eq_str(ext, "js") || eq_str(ext, "mjs") {
        "text/javascript; charset=utf-8"
    } else if eq_str(ext, "json") || eq_str(ext, "map") {
        "application/json; charset=utf-8"
    } else if eq_str(ext, "txt") {
        "text/plain; charset=utf-8"
    } else if eq_str(ext, "svg") {
        "image/svg+xml"
    } else if eq_str(ext, "png") {
        "image/png"
    } else if eq_str(ext, "jpg") || eq_str(ext, "jpeg") {
        "image/jpeg"
    } else if eq_str(ext, "gif") {
        "image/gif"
    } else if eq_str(ext, "ico") {
        "image/x-icon"
    } else if eq_str(ext, "webp") {
        "image/webp"
    } else if eq_str(ext, "woff2") {
        "font/woff2"
    } else if eq_str(ext, "woff") {
        "font/woff"
    } else if eq_str(ext, "ttf") {
        "font/ttf"
    } else if eq_str(ext, "otf") {
        "font/otf"
    } else if eq_str(ext, "eot") {
        "application/vnd.ms-fontobject"
    } else if eq_str(ext, "wasm") {
        "application/wasm"
    } else {
        "application/octet-stream"
    }
}

/// The file name a path ends in.
fn file_name_exec(path: &Vec<char>) -> (r: Option<Vec<char>>)
    ensures
        match r {
            Some(n) => file_name(split_on(path@, '/')) == Some(n@),
            None => file_name(split_on(path@, '/')) is None,
        },
{
    let mut pieces = split_range(path, 0, path.len(), '/');
    assert(path@.subrange(0, path@.len() as int) =~= path@);
    let ghost ps = split_on(path@, '/');
    let mut k = pieces.len();
    assert(ps.take(k as int) =~= ps);
    // Walk back over the pieces that name no file.
    while k > 0 && (pieces[k - 1].len() == 0 || (pieces[k - 1].len() == 1 && pieces[k - 1][0]
        == '.'))
        invariant
            views(pieces@) == ps,
            k <= pieces.len(),
            file_name(ps.take(k as int)) == file_name(ps),
        decreases k,
    {
        assert(ps[k - 1] == pieces@[k - 1]@);
        assert(ps.take(k as int).drop_last() =~= ps.take(k - 1));
        if pieces[k - 1].len() == 1 {
            assert(ps[k - 1] =~= seq!['.']);
        }
        k = k - 1;
    }
    if k == 0 {
        assert(ps.take(0) =~= Seq::<Seq<char>>::empty());
        return None;
    }
    assert(ps[k - 1] == pieces@[k - 1]@);
    assert(ps.take(k as int).last() == pieces@[k - 1]@);
    if is_dot_dot(&pieces[k - 1]) {
        return None;
    }
    let name = pieces.remove(k - 1);
    assert(name@ != seq!['.']) by {
        if name@ == seq!['.'] {
            assert(name@.len() == 1 && name@[0] == '.');
        }
    }
    Some(name)
}

/// The index just after the last `.` of `name`, or 0 where it has none.
fn after_last_dot(name: &Vec<char>) -> (j: usize)
    ensures
        j <= name.len(),
        match last_dot(name@) {
            Some(i) => j == i + 1 && 0 <= i,
            None => j == 0,
        },
{
    let mut j = name.len();
    assert(name@.take(j as int) =~= name@);
    while j > 0 && name[j - 1] != '.'
        invariant
            j <= name.len(),
            last_dot(name@.take(j as int)) == last_dot(name@),
        decreases j,
    {
        assert(name@.take(j as int).drop_last() =~= name@.take(j - 1));
        j = j - 1;
    }
    if j == 0 {
        assert(name@.take(0) =~= Seq::<char>::empty());
    } else {
        assert(last_dot(name@.take(j as int)) == Some(j - 1));
    }
    j
}

/// The extension of the file a path names.
fn extension_exec(path: &Vec<char>) -> (r: Vec<char>)
    ensures
        r@ == path_extension(path@),
{
    let name = match file_name_exec(path) {
        Some(n) => n,
        None => {
            return Vec::new();
        },
    };
    let j = after_last_dot(&name);
    if j <= 1 {
        assert(extension_of(name@) is None);
        let r: Vec<char> = Vec::new();
        assert(r@ =~= path_extension(path@));
        return r;
    }
    let mut r: Vec<char> = Vec::new();
    crate::text::push_range(&mut r, &name, j, name.len());
    assert(r@ =~= name@.skip(j as int));
    r
}

/// The file name a path ends in, as `Path::file_name` gives it.
pub fn path_file_name(path: &str) -> (r: Option<String>)
    ensures
        match r {
            Some(n) => file_name(split_on(path@, '/')) == Some(n@),
            None => file_name(split_on(path@, '/')) is None,
        },
{
    let p = chars_of(path);
    match file_name_exec(&p) {
        Some(n) => Some(string_of(&n)),
        None => None,
    }
}

/// The stem of a file name, as `Path::file_stem` gives it: the name
/// without its extension.
pub open spec fn stem_of(name: Seq<char>) -> Seq<char> {
    match last_dot(name) {
        Some(i) => if i == 0 {
            name
        } else {
            name.take(i)
        },
        None => name,
    }
}

/// The stem of the file a path names, as `Path::file_stem` gives it.
pub fn path_file_stem(path: &str) -> (r: Option<String>)
    ensures
        match r {
            Some(n) => file_name(split_on(path@, '/')) matches Some(name) && n@ == stem_of(name),
            None => file_name(split_on(path@, '/')) is None,
        },
{
    let p = chars_of(path);
    let name = match file_name_exec(&p) {
        Some(n) => n,
        None => {
            return None;
        },
    };
    let j = after_last_dot(&name);
    if j <= 1 {
        assert(stem_of(name@) == name@);
        return Some(string_of(&name));
    }
    let mut r: Vec<char> = Vec::new();
    crate::text::push_range(&mut r, &name, 0, j - 1);
    assert(r@ =~= name@.take(j - 1));
    Some(string_of(&r))
}

/// The content type a file is served as, by the extension of its name.
pub fn content_type(path: &str) -> (r: &'static str)
    ensures
        r@ == mime_of(path_extension(path@)),
{
    let p = chars_of(path);
    let ext = extension_exec(&p);
    mime_exec(&ext)
}

/// The reason phrase sent with a status code.
pub open spec fn reason_of(status: u16) -> Seq<char> {
    if status == 200 {
        "OK"@
    } else if status == 403 {
        "Forbidden"@
    } else if status == 404 {
        "Not Found"@
    } else if status == 413 {
        "Payload Too Large"@
    } else {
        "Method Not Allowed"@
    }
}

/// The reason phrase sent with a status code.
pub fn reason(status: u16) -> (r: &'static str)
    ensures
        r@ == reason_of(status),
{
    if status == 200 {
        "OK"
    } else if status == 403 {
        "Forbidden"
    } else if status == 404 {
        "Not Found"
    } else if status == 413 {
        "Payload Too Large"
    } else {
        "Method Not Allowed"
    }
}

/// The status line and headers of a response whose body is `len` bytes.
/// Everything is sent `no-store`: the server's whole job is to show the
/// file on disk right now, and a rebuilt asset must never come from cache.
pub open spec fn response_head_spec(status: u16, content_type: Seq<char>, len: nat) -> Seq<
    char,
> {
    "HTTP/1.1 "@ + decimal(status as nat) + " "@ + reason_of(status) + "\r\nContent-Type: "@
        + content_type + "\r\nContent-Length: "@ + decimal(len)
        + "\r\nCache-Control: no-store\r\nConnection: close\r\n\r\n"@
}

/// The status line and headers of a response whose body is `len` bytes.
pub fn response_head(status: u16, content_type: &str, len: usize) -> (r: String)
    ensures
        r@ == response_head_spec(status, content_type@, len as nat),
{
    let mut out: Vec<char> = Vec::new();
    push_str(&mut out, "HTTP/1.1 ");
    push_decimal(&mut out, status as u64);
    push_str(&mut out, " ");
    push_str(&mut out, reason(status));
    push_str(&mut out, "\r\nContent-Type: ");
    push_str(&mut out, content_type);
    push_str(&mut out, "\r\nContent-Length: ");
    push_decimal(&mut out, len as u64);
    push_str(&mut out, "\r\nCache-Control: no-store\r\nConnection: close\r\n\r\n");
    string_of(&out)
}

/// The code of `c` with an ASCII capital lowered.
pub open spec fn lower_code(c: char) -> u32 {
    if 'A' <= c <= 'Z' {
        (c as u32 + 32) as u32
    } else {
        c as u32
    }
}

fn lower_code_exec(c: char) -> (r: u32)
    ensures
        r == lower_code(c),
{
    if 'A' <= c && c <= 'Z' {
        c as u32 + 32
    } else {
        c as u32
    }
}

/// Whether `a` and `b` read the same with ASCII case ignored.
pub open spec fn same_ignoring_case(a: Seq<char>, b: Seq<char>) -> bool {
    a.len() == b.len() && forall|i: int| 0 <= i < a.len() ==> lower_code(a[i]) == lower_code(b[i])
}

fn range_eq_ignoring_case(s: &Vec<char>, lo: usize, hi: usize, lit: &str) -> (r: bool)
    requires
        lo <= hi <= s.len(),
    ensures
        r == same_ignoring_case(s@.subrange(lo as int, hi as int), lit@),
{
    let l = chars_of(lit);
    if hi - lo != l.len() {
        return false;
    }
    let mut k: usize = 0;
    while k < l.len()
        invariant
            lo + l.len() == hi <= s.len(),
            l@ == lit@,
            k <= l.len(),
            forall|j: int|
                0 <= j < k ==> lower_code(s@[lo + j]) == lower_code(#[trigger] l@[j]),
        decreases l.len() - k,
    {
        if lower_code_exec(s[lo + k]) != lower_code_exec(l[k]) {
            assert(s@.subrange(lo as int, hi as int)[k as int] == s@[lo + k]);
            assert(lower_code(s@.subrange(lo as int, hi as int)[k as int]) != lower_code(
                lit@[k as int],
            ));
            return false;
        }
        k = k + 1;
    }
    assert forall|j: int| 0 <= j < l@.len() implies lower_code(
        s@.subrange(lo as int, hi as int)[j],
    ) == lower_code(l@[j]) by {
        assert(s@.subrange(lo as int, hi as int)[j] == s@[lo + j]);
    }
    true
}

/// The value of a digit character.
pub open spec fn digit_value(c: char) -> nat {
    (c as u32 - 48) as nat
}

/// The value of a string of decimal digits.
pub open spec fn digits_value(s: Seq<char>) -> nat
    decreases s.len(),
{
    if s.len() == 0 {
        0
    } else {
        digits_value(s.drop_last()) * 10 + digit_value(s.last())
    }
}

/// `s` without the `+` it may start with.
pub open spec fn unsigned_part(s: Seq<char>) -> Seq<char> {
    if s.len() > 0 && s[0] == '+' {
        s.drop_first()
    } else {
        s
    }
}

/// Whether every character of `d` is a decimal digit.
pub open spec fn all_digits(d: Seq<char>) -> bool {
    forall|i: int| 0 <= i < d.len() ==> '0' <= #[trigger] d[i] <= '9'
}

/// What `str::parse::<usize>` gives for `s`: an optional `+` and then one or
/// more decimal digits whose value fits in a `usize`.
pub open spec fn parse_usize(s: Seq<char>) -> Option<nat> {
    let d = unsigned_part(s);
    if d.len() > 0 && all_digits(d) && digits_value(d) <= usize::MAX {
        Some(digits_value(d))
    } else {
        None
    }
}

proof fn lemma_digits_value_grows(s: Seq<char>, j: int)
    requires
        0 <= j <= s.len(),
    ensures
        digits_value(s.take(j)) <= digits_value(s),
    decreases s.len() - j,
{
    if j < s.len() {
        lemma_digits_value_grows(s, j + 1);
        assert(s.take(j + 1).drop_last() =~= s.take(j));
    } else {
        assert(s.take(j) =~= s);
    }
}

/// `s[lo..hi]` parsed as a `usize`.
fn parse_usize_range(s: &Vec<char>, lo: usize, hi: usize) -> (r: Option<usize>)
    requires
        lo <= hi <= s.len(),
    ensures
        match r {
            Some(v) => parse_usize(s@.subrange(lo as int, hi as int)) == Some(v as nat),
            None => parse_usize(s@.subrange(lo as int, hi as int)) is None,
        },
{
    let ghost t = s@.subrange(lo as int, hi as int);
    let start = if lo < hi && s[lo] == '+' {
        lo + 1
    } else {
        lo
    };
    let ghost d = s@.subrange(start as int, hi as int);
    assert(d =~= unsigned_part(t));
    if start == hi {
        assert(parse_usize(t) is None);
        return None;
    }
    let mut acc: usize = 0;
    let mut k = start;
    while k < hi
        invariant
            lo <= start <= k <= hi <= s.len(),
            d == s@.subrange(start as int, hi as int),
            t == s@.subrange(lo as int, hi as int),
            d == unsigned_part(t),
            acc == digits_value(d.take(k - start)),
            forall|i: int| 0 <= i < k - start ==> '0' <= #[trigger] d[i] <= '9',
        decreases hi - k,
    {
        let c = s[k];
        assert(d[k - start] == c);
        if c < '0' || '9' < c {
            assert(!('0' <= d[k - start] <= '9'));
            assert(!all_digits(d));
            assert(parse_usize(t) is None);
            return None;
        }
        let v = (c as u32 - 48) as usize;
        assert(d.take(k - start + 1).drop_last() =~= d.take(k - start));
        if acc > (usize::MAX - v) / 10 {
            assert(digits_value(d.take(k - start + 1)) > usize::MAX) by (nonlinear_arith)
                requires
                    acc > (usize::MAX - v) / 10,
                    digits_value(d.take(k - start + 1)) == acc * 10 + v,
                    v <= 9,
            ;
            proof {
                lemma_digits_value_grows(d, k - start + 1);
            }
            assert(parse_usize(t) is None);
            return None;
        }
        assert(acc * 10 + v <= usize::MAX) by (nonlinear_arith)
            requires
                acc <= (usize::MAX - v) / 10,
                v <= 9,
        ;
        acc = acc * 10 + v;
        k = k + 1;
    }
    assert(d.take(hi - start) =~= d);
    Some(acc)
}

/// What one request header line means to the server.
#[derive(PartialEq, Eq, Structural)]
pub enum Header {
    /// The blank line that ends the headers.
    End,
    /// A `Content-Length` header, with its value; an unparsable value reads
    /// as no body.
    Length(usize),
    /// Any other header.
    Other,
}

/// The index of the first `:` at or after `i`.
pub open spec fn colon_from(s: Seq<char>, i: int) -> Option<int>
    decreases s.len() - i,
{
    if i < 0 || i >= s.len() {
        None
    } else if s[i] == ':' {
        Some(i)
    } else {
        colon_from(s, i + 1)
    }
}

/// What a header line means: the end of the headers when it is blank once
/// trailing whitespace is removed, a `Content-Length` when its name is that
/// in any case, and nothing the server needs otherwise.
pub open spec fn header_spec(line: Seq<char>) -> Header {
    let l = trim_end(line);
    if l.len() == 0 {
        Header::End
    } else {
        match colon_from(l, 0) {
            Some(c) => if same_ignoring_case(l.take(c), "content-length"@) {
                match parse_usize(trim(l.skip(c + 1))) {
                    Some(v) => Header::Length(v as usize),
                    None => Header::Length(0),
                }
            } else {
                Header::Other
            },
            None => Header::Other,
        }
    }
}

/// What a request header line means to the server.
pub fn header(line: &str) -> (r: Header)
    ensures
        r == header_spec(line@),
{
    let s = chars_of(line);
    let end = skip_ws_back(&s, 0, s.len());
    let ghost l = trim_end(line@);
    assert(s@.subrange(0, s@.len() as int) =~= s@);
    assert(s@.subrange(0, end as int) == l);
    if end == 0 {
        return Header::End;
    }
    let mut c: usize = 0;
    while c < end && s[c] != ':'
        invariant
            c <= end <= s.len(),
            l == s@.subrange(0, end as int),
            colon_from(l, c as int) == colon_from(l, 0),
        decreases end - c,
    {
        c = c + 1;
    }
    if c == end {
        return Header::Other;
    }
    assert(colon_from(l, 0) == Some(c as int));
    assert(l.take(c as int) =~= s@.subrange(0, c as int));
    if !range_eq_ignoring_case(&s, 0, c, "content-length") {
        return Header::Other;
    }
    let (a, b) = trim_range(&s, c + 1, end);
    assert(l.skip(c + 1) =~= s@.subrange(c + 1, end as int));
    match parse_usize_range(&s, a, b) {
        Some(v) => Header::Length(v),
        None => Header::Length(0),
    }
}

/// The first index at or after `i` that is not whitespace, or the end.
pub open spec fn ws_end(s: Seq<char>, i: int) -> int
    decreases s.len() - i,
{
    if i < 0 || i >= s.len() || !is_ws(s[i]) {
        i
    } else {
        ws_end(s, i + 1)
    }
}

/// The first index at or after `i` that is whitespace, or the end.
pub open spec fn word_end(s: Seq<char>, i: int) -> int
    decreases s.len() - i,
{
    if i < 0 || i >= s.len() || is_ws(s[i]) {
        i
    } else {
        word_end(s, i + 1)
    }
}

proof fn lemma_ends_bounded(s: Seq<char>, i: int)
    requires
        0 <= i <= s.len(),
    ensures
        i <= ws_end(s, i) <= s.len(),
        i <= word_end(s, i) <= s.len(),
    decreases s.len() - i,
{
    if i < s.len() {
        lemma_ends_bounded(s, i + 1);
    }
}

/// The method of a request line: its first whitespace-separated word, or
/// nothing.
pub open spec fn method_of(line: Seq<char>) -> Seq<char> {
    let a = ws_end(line, 0);
    line.subrange(a, word_end(line, a))
}

/// The target of a request line: its second whitespace-separated word, or
/// `/` where it has none.
pub open spec fn target_of(line: Seq<char>) -> Seq<char> {
    let c = ws_end(line, word_end(line, ws_end(line, 0)));
    if c >= line.len() {
        seq!['/']
    } else {
        line.subrange(c, word_end(line, c))
    }
}

fn ws_end_exec(s: &Vec<char>, i: usize) -> (r: usize)
    requires
        i <= s.len(),
    ensures
        r == ws_end(s@, i as int),
        i <= r <= s.len(),
{
    let mut k = i;
    while k < s.len() && is_ws_char(s[k])
        invariant
            i <= k <= s.len(),
            ws_end(s@, k as int) == ws_end(s@, i as int),
        decreases s.len() - k,
    {
        k = k + 1;
    }
    k
}

fn word_end_exec(s: &Vec<char>, i: usize) -> (r: usize)
    requires
        i <= s.len(),
    ensures
        r == word_end(s@, i as int),
        i <= r <= s.len(),
{
    let mut k = i;
    while k < s.len() && !is_ws_char(s[k])
        invariant
            i <= k <= s.len(),
            word_end(s@, k as int) == word_end(s@, i as int),
        decreases s.len() - k,
    {
        k = k + 1;
    }
    k
}

/// The method and target of a request line.
pub fn request_line(line: &str) -> (r: (String, String))
    ensures
        r.0@ == method_of(line@),
        r.1@ == target_of(line@),
{
    let s = chars_of(line);
    let a = ws_end_exec(&s, 0);
    let b = word_end_exec(&s, a);
    let method = string_of(&crate::text::slice_of(&s, a, b));
    let c = ws_end_exec(&s, b);
    if c >= s.len() {
        let mut t: Vec<char> = Vec::new();
        t.push('/');
        assert(t@ =~= seq!['/']);
        return (method, string_of(&t));
    }
    let d = word_end_exec(&s, c);
    (method, string_of(&crate::text::slice_of(&s, c, d)))
}

/// What the server does with a request, decided from its request line.
pub enum Route {
    /// A POST, answered from its target and body by [`post_route`].
    Post(String),
    /// A method the server does not serve: 405.
    NotAllowed,
    /// A GET or HEAD for a target that tries to leave the root: 403. The
    /// flag is whether the request was a HEAD.
    Forbidden(bool),
    /// A GET or HEAD for the file at the given path: 200 with its contents,
    /// or 404 where it cannot be read. The flag is whether the request was a
    /// HEAD, which is answered without the body.
    File(String, bool),
}

pub enum RouteView {
    Post(Seq<char>),
    NotAllowed,
    Forbidden(bool),
    File(Seq<char>, bool),
}

impl View for Route {
    type V = RouteView;

    open spec fn view(&self) -> RouteView {
        match self {
            Route::Post(t) => RouteView::Post(t@),
            Route::NotAllowed => RouteView::NotAllowed,
            Route::Forbidden(h) => RouteView::Forbidden(*h),
            Route::File(p, h) => RouteView::File(p@, *h),
        }
    }
}

/// The path a request target decodes to.
pub open spec fn decoded_path(target: Seq<char>) -> Seq<char> {
    lossy_text(unescape_from(encode_utf8(path_of(target)), 0))
}

/// What the server does with a request line, serving `root`, once the
/// target has been decoded to `decoded`.
pub open spec fn route_spec(root: Seq<char>, line: Seq<char>, decoded: Seq<char>) -> RouteView {
    let m = method_of(line);
    if m == "POST"@ {
        RouteView::Post(target_of(line))
    } else if m != "GET"@ && m != "HEAD"@ {
        RouteView::NotAllowed
    } else {
        match resolve_spec(root, decoded) {
            Some(p) => RouteView::File(p, m == "HEAD"@),
            None => RouteView::Forbidden(m == "HEAD"@),
        }
    }
}

/// What the server does with a request whose request line is `line`.
pub fn route(root: &str, line: &str) -> (r: Route)
    ensures
        r@ == route_spec(root@, line@, decoded_path(target_of(line@))),
{
    let (method, target) = request_line(line);
    let m = chars_of(method.as_str());
    if eq_str(&m, "POST") {
        return Route::Post(target);
    }
    let head_only = eq_str(&m, "HEAD");
    if !head_only && !eq_str(&m, "GET") {
        return Route::NotAllowed;
    }
    match resolve(root, target.as_str()) {
        Some(p) => Route::File(p, head_only),
        None => Route::Forbidden(head_only),
    }
}

/// How a POST is answered.
#[derive(PartialEq, Eq, Structural)]
pub enum PostRoute {
    /// Any path but [`RUN_ENDPOINT`]: 404, once the body is drained.
    NotFound,
    /// A declared body longer than [`MAX_BODY`]: 413.
    TooLarge,
    /// A snippet to run, whose answer is sent with 200.
    Run,
}

/// How a POST to `target` declaring a body of `length` bytes is answered.
pub open spec fn post_route_spec(target: Seq<char>, length: nat) -> PostRoute {
    if path_of(target) != RUN_ENDPOINT@ {
        PostRoute::NotFound
    } else if length > MAX_BODY {
        PostRoute::TooLarge
    } else {
        PostRoute::Run
    }
}

/// How a POST to `target` declaring a body of `length` bytes is answered.
pub fn post_route(target: &str, length: usize) -> (r: PostRoute)
    ensures
        r == post_route_spec(target@, length as nat),
{
    let path = request_path(target);
    let p = chars_of(path.as_str());
    if !eq_str(&p, RUN_ENDPOINT) {
        PostRoute::NotFound
    } else if length > MAX_BODY {
        PostRoute::TooLarge
    } else {
        PostRoute::Run
    }
}

/// Whether no piece of `pieces` is `..`.
pub open spec fn no_climb(pieces: Seq<Seq<char>>) -> bool {
    forall|i: int| 0 <= i < pieces.len() ==> #[trigger] pieces[i] != seq!['.', '.']
}

proof fn lemma_push_parts_below(root: Seq<char>, pieces: Seq<Seq<char>>)
    requires
        forall|i: int, j: int|
            0 <= i < pieces.len() && 0 <= j < pieces[i].len() ==> #[trigger] pieces[i][j] != '/',
    ensures
        starts_with(push_parts(root, pieces), root),
        no_climb(split_on(push_parts(root, pieces).skip(root.len() as int), '/')),
    decreases pieces.len(),
{
    if pieces.len() == 0 {
        assert(root.take(root.len() as int) =~= root);
        assert(root.skip(root.len() as int) =~= Seq::<char>::empty());
        assert(split_on(Seq::<char>::empty(), '/') =~= seq![Seq::<char>::empty()]);
    } else {
        let init = pieces.drop_last();
        assert forall|i: int, j: int|
            0 <= i < init.len() && 0 <= j < init[i].len() implies #[trigger] init[i][j] != '/' by {
            assert(init[i] == pieces[i]);
        }
        lemma_push_parts_below(root, init);
        let q = push_parts(root, init);
        let r = q.skip(root.len() as int);
        assert(q =~= root + r);
        if is_normal(pieces.last()) {
            let part = pieces.last();
            assert forall|j: int| 0 <= j < part.len() implies part[j] != '/' by {
                assert(pieces[pieces.len() - 1][j] == part[j]);
            }
            crate::lines::lemma_split_on_nonempty(r, '/');
            if q.len() > 0 && q.last() != '/' {
                let q2 = q + seq!['/'] + part;
                assert(q2.take(root.len() as int) =~= root);
                let r2 = r.push('/') + part;
                assert(q2.skip(root.len() as int) =~= r2);
                assert(r.push('/').drop_last() =~= r);
                assert(split_on(r.push('/'), '/') == split_on(r, '/').push(Seq::<char>::empty()));
                crate::lines::lemma_split_append_plain(r.push('/'), part, '/');
                assert(Seq::<char>::empty() + part =~= part);
                assert(split_on(r2, '/') =~= split_on(r, '/').push(part));
                assert forall|i: int| 0 <= i < split_on(r2, '/').len() implies #[trigger] split_on(
                    r2,
                    '/',
                )[i] != seq!['.', '.'] by {
                    if i < split_on(r, '/').len() {
                        assert(split_on(r2, '/')[i] == split_on(r, '/')[i]);
                    }
                }
            } else {
                let q2 = q + part;
                assert(q2.take(root.len() as int) =~= root);
                let r2 = r + part;
                assert(q2.skip(root.len() as int) =~= r2);
                if r.len() > 0 {
                    assert(r.last() == q.last());
                    assert(r.drop_last().push('/') =~= r);
                }
                assert(split_on(r, '/').last() =~= Seq::<char>::empty());
                crate::lines::lemma_split_append_plain(r, part, '/');
                assert(Seq::<char>::empty() + part =~= part);
                assert forall|i: int| 0 <= i < split_on(r2, '/').len() implies #[trigger] split_on(
                    r2,
                    '/',
                )[i] != seq!['.', '.'] by {
                    if i < split_on(r, '/').len() - 1 {
                        assert(split_on(r2, '/')[i] == split_on(r, '/')[i]);
                    }
                }
            }
        }
    }
}

/// A request resolves to the served root with components appended, and
/// none of those components is `..`: whatever the target, the file served
/// lies below the root.
pub proof fn lemma_resolved_path_stays_below_root(root: Seq<char>, decoded: Seq<char>)
    ensures
        resolve_spec(root, decoded) matches Some(p) ==> starts_with(p, root) && no_climb(
            split_on(p.skip(root.len() as int), '/'),
        ),
{
    crate::lines::lemma_pieces_lack_sep(decoded, '/');
    lemma_push_parts_below(root, split_on(decoded, '/'));
}

} // verus!

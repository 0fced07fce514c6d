# aquascope_reveal

Builds a reveal.js deck from a markdown file: front matter, slide
separators, reveal's attribute comments, ```` ```origins ```` blocks with
their boxes and Run buttons, the page around the slides, and a small preview
server with a local stand-in for the Rust playground.

The library in `src/` holds the decisions, each with a contract that Verus
proves:

| module | what it decides |
| --- | --- |
| `text`, `lines` | characters, trimming, splitting and joining lines |
| `markers` | origin markers: hidden lines, stripping markers into boxes, the program a block stands for |
| `highlight`, `spans` | token classes over rustc's lexer, nesting spans, escaping, emitting HTML |
| `origins` | rendering one block, finding every block in a deck, checking blocks against their fences |
| `attributes` | `<!-- .element: -->` and `<!-- .slide: -->` comments |
| `deck` | slides and stacks, and their sections |
| `frontmatter` | locating the YAML block and refusing reserved options |
| `lint` | warnings for misspelt Aquascope specifiers |
| `page` | splicing rendered blocks into the markdown, and the page around the slides |
| `run` | what a Run request is answered with |
| `serve` | which file a request names, its content type, the response head |

Beside the contracts, public proof functions state what holds across
calls: a served path never leaves the root, the sigils read as the frames
they abbreviate, rendered blocks always splice into the deck they came from,
and more.

Calls into other crates (rustc's lexer, pulldown-cmark, ansi-to-html, and a
few std functions) go through small wrappers whose contracts name what they
return.

`app/` is the command-line tool around the library: argument parsing, files,
sockets, processes and YAML.

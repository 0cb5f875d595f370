# fast5ever

An arena DOM for HTML, with its tree operations verified by Verus. html5ever
parses HTML into the arena and serializes it back out, spelling the output as
the WHATWG serialization algorithm (and a browser's `innerHTML`) does.

## Layout

- `src/` is the verified library.
  - `dom.rs`: the arena (`Dom`, `Node`, `NodeData`, `QName`, `DomError`) and
    its mathematical view; `tree.rs`: what a well-formed arena is.
  - `edit.rs`, `attrs.rs`, `names.rs`, `copy.rs`: detaching, inserting,
    replacing, attributes and text, element queries, deep copies across arenas.
  - `walk.rs`, `html.rs`, `repr.rs`: document-order walks, serialization
    through html5ever's `HtmlSerializer`, short printable forms.
  - `sink.rs`, `depth.rs`: what the parser's tree builder asks of the arena,
    and the Chromium-style nesting cap between tokenizer and tree builder.
  - `guard.rs`, `shape.rs`: run-time checks that an insertion, or a whole
    arena, is well formed.
  - `laws.rs`: properties that span several operations.
- `app/` holds what Verus does not see: the parser driver (html5ever's
  `TreeSink` and `TokenSink` impls, which hand each call to the library) and
  the Python bindings.
- `tests/` exercises the library on concrete trees.

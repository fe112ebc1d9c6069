# mcat_core

A verified library of two parts.

- `src/html_preprocessor.rs` turns the HTML embedded in Markdown into Markdown. Every `<`
  and `>` is escaped, then the start and end tags that the regex engine matches are
  restored; from the form its matches take, each restored tag is one of a known element.
  The result is parsed as an HTML fragment (by `scraper`) and every element is rendered
  by its rule. `src/dom.rs` holds the plain tree model and rebuilds it from the parser's
  traversal; `src/tag_order.rs` sorts the tag names for the tag pattern; `src/text.rs`
  holds the character-level operations (trimming, lines, joining, replacing, escaping).
- `src/cdp.rs` holds the decisions of a headless-browser screenshot client: the browser's
  arguments, the choice of target page, which message answers a command, when the page
  has loaded, and the decoding of the screenshot.

`app/` does the I/O around them: starting the browser, HTTP and WebSocket traffic, and
the floating-point viewport computation. `tests/` runs the library on concrete inputs.

# twrite_core

A headless text-editor core written in Verus: the functions in `src/`
are verified against their `requires`/`ensures` contracts. The calls into
outside crates and std sit behind a few marked trusted items
(`#[verifier::external_body]`), as does the host's completion callback.

- `buffer`, `history`, `rope_text`, `text`: the rope-backed text buffer,
  its undo/redo transactions and the character/byte model behind them.
  Undo after any edit restores the text (`law_undo_*`, `law_redo_*`).
- `movement`, `selection`, `coordinates`: cursor motion and selections.
- `prompt`, `search`, `search_hook`: the shared command prompt and the
  find/replace hook (regex matching goes through `regex`).
- `folding`, `syntax`: fold state and concealed display lines.
- `hook`: key events, hook contexts and the auto-pairs hook.
- `markdown`: tables, lists, wikilinks, links (through `pulldown-cmark`),
  fold ranges, table padding, the Markdown editing hook, the line
  highlighter (`highlight`, `inline`: headings, quotes and callouts, tasks,
  tables, frontmatter, emphasis, code, links, `==mark==`, wikilinks, with
  delimiters concealed away from the cursor) and the `[[` wikilink
  completion session (`completion`, routed by the editing hook).

`app/` holds what the verifier does not see: error types with
`std::error::Error`, printable key labels and file loading and saving.

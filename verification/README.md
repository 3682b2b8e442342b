# md2pptx

`md2pptx` converts Markdown slide decks into a minimal PPTX file. This crate
is written in Verus: the library under `src/` states its behaviour in
`requires`/`ensures` contracts and proves them; the program under `app/`
reads files, lays slides out and prints diagnostics around it.

## Layout

- `src/text.rs`: characters, trimming, line splitting and joining.
- `src/events.rs`: the Markdown events of `pulldown_cmark` as plain values.
- `src/segment.rs`: slide blocks (headings, paragraphs, lists, tables, quotes,
  code, math and images) from the events of one Markdown segment.
- `src/inline_math.rs`: `$...$` inline math inside text runs.
- `src/source_blocks.rs`: `::: name attrs` directives and Markdown runs.
- `src/markdown.rs`: slides split at `---` lines, titles, `$$` display math,
  `::: columns` layouts, and the laws of the parser.
- `src/model.rs`: the slide model and its views.
- `src/pptx.rs`: image headers, XML escaping, colors, text runs, the
  package's relationship and content-type parts, and the whole package.
- `src/archive.rs`: in-memory ZIP archives through the `zip` crate.
- `src/diagnostics.rs`: which warnings are reported, and the summary line.
- `src/style.rs`, `src/cli.rs`, `src/error.rs`, `src/paths.rs`: style
  choices and checks, command-line options, errors, paths.
- `app/`: the command-line program: argument parsing, style files, slide
  layout in points, file output and colored diagnostics.
- `tests/`: tests of the library.

## Usage

```text
md2pptx <input.md> -o <output.pptx> [--style <style.toml>] [--color auto|always|never] [--quiet]
```

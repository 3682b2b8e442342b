use std::path::Path;

use md2pptx::error::Error;
use md2pptx::markdown::parse_markdown;
use md2pptx::model::{Block, Inline, Presentation};
use md2pptx::style::MathRenderer;

fn parse(text: &str) -> Presentation {
    parse_markdown(text, Path::new("."), MathRenderer::Literal).unwrap()
}

fn parse_error(text: &str) -> Error {
    parse_markdown(text, Path::new("."), MathRenderer::Literal).unwrap_err()
}

#[test]
fn unknown_directive_is_refused() {
    let err = parse_error("::: widget\n:::");
    assert_eq!(err.message(), "invalid Markdown: unknown directive: widget");
}

#[test]
fn column_outside_columns_is_refused() {
    let err = parse_error("::: column\nx\n:::");
    assert_eq!(
        err.message(),
        "invalid Markdown: column directive must be inside columns"
    );
}

#[test]
fn stray_closing_fence_is_refused() {
    let err = parse_error("text\n:::\n");
    assert_eq!(
        err.message(),
        "invalid Markdown: unexpected directive closing fence"
    );
}

#[test]
fn directive_names_are_words() {
    let err = parse_error("::: bad!name\n:::");
    assert_eq!(
        err.message(),
        "invalid Markdown: invalid directive name: bad!name"
    );
}

#[test]
fn directive_attributes_need_values() {
    let err = parse_error("::: columns novalue\n:::");
    assert_eq!(
        err.message(),
        "invalid Markdown: invalid directive attribute: novalue"
    );
    let err = parse_error("::: columns label=\"open\n:::");
    assert_eq!(
        err.message(),
        "invalid Markdown: unterminated quoted value for directive attribute: label"
    );
}

#[test]
fn attributes_on_a_column_are_refused() {
    let err = parse_error("::: columns\n::: column width=2\nA\n:::\n::: column\nB\n:::\n:::");
    assert_eq!(
        err.message(),
        "invalid Markdown: unknown attribute on column directive: width"
    );
}

#[test]
fn unterminated_display_math_is_refused() {
    let err = parse_error("$$\nx = 1");
    assert!(matches!(err, Error::UnsupportedFeature("unterminated math")));
}

#[test]
fn disabled_math_refuses_inline_and_fenced_math() {
    let inline = parse_markdown("a $x$ b", Path::new("."), MathRenderer::Disabled).unwrap_err();
    assert!(matches!(inline, Error::UnsupportedFeature("math")));
    let fenced =
        parse_markdown("```math\nx\n```", Path::new("."), MathRenderer::Disabled).unwrap_err();
    assert!(matches!(fenced, Error::UnsupportedFeature("math")));
    let plain = parse_markdown("no math here", Path::new("."), MathRenderer::Disabled).unwrap();
    assert_eq!(plain.slides.len(), 1);
}

#[test]
fn blank_slides_are_dropped() {
    let presentation = parse("# A\n---\n   \n---\n# B");
    assert_eq!(presentation.slides.len(), 2);
    assert_eq!(
        presentation.slides[1].title,
        Some(vec![Inline::Text("B".into())])
    );
}

#[test]
fn empty_deck_has_no_slides() {
    assert!(parse("").slides.is_empty());
}

#[test]
fn code_blocks_keep_language_and_text() {
    let presentation = parse("```rust\nfn main() {}\n```\n\n    indented\n");
    assert_eq!(
        presentation.slides[0].blocks[0],
        Block::CodeBlock {
            language: Some("rust".into()),
            code: "fn main() {}\n".into()
        }
    );
    assert_eq!(
        presentation.slides[0].blocks[1],
        Block::CodeBlock {
            language: None,
            code: "indented".into()
        }
    );
}

#[test]
fn directives_inside_code_fences_are_code() {
    let presentation = parse("```\n::: columns\n```");
    assert_eq!(presentation.slides[0].blocks.len(), 1);
    assert_eq!(
        presentation.slides[0].blocks[0],
        Block::CodeBlock {
            language: Some("".into()),
            code: "::: columns\n".into()
        }
    );
}

#[test]
fn quotes_bold_italic_and_breaks() {
    let presentation = parse("> quoted\n\n**b** and *i*\nnext");
    assert_eq!(
        presentation.slides[0].blocks[0],
        Block::Quote(vec![Inline::Text("quoted".into())])
    );
    assert_eq!(
        presentation.slides[0].blocks[1],
        Block::Paragraph(vec![
            Inline::Bold("b".into()),
            Inline::Text(" and ".into()),
            Inline::Italic("i".into()),
            Inline::Text("\n".into()),
            Inline::Text("next".into()),
        ])
    );
}

#[test]
fn images_in_paragraphs_become_image_blocks() {
    let presentation = parse("![chart](chart.png \"Sales\")");
    assert_eq!(presentation.slides[0].blocks.len(), 1);
    let Block::Image { path, alt } = &presentation.slides[0].blocks[0] else {
        panic!("expected image block");
    };
    assert_eq!(path, &Path::new(".").join("chart.png"));
    assert_eq!(alt, "Sales");
}

#[test]
fn image_paths_are_joined_to_the_markdown_directory() {
    let presentation = parse_markdown(
        "Intro\n\n![plot](img/plot.svg \"Plot\")",
        Path::new("decks/q3"),
        MathRenderer::Literal,
    )
    .unwrap();
    let Block::Image { path, alt } = &presentation.slides[0].blocks[1] else {
        panic!("expected image block");
    };
    assert_eq!(path, &Path::new("decks/q3").join("img/plot.svg"));
    assert_eq!(alt, "Plot");
}

#[test]
fn windows_line_endings_are_read() {
    let presentation = parse("# T\r\n\r\nBody\r\n---\r\nNext");
    assert_eq!(presentation.slides.len(), 2);
    assert_eq!(
        presentation.slides[0].title,
        Some(vec![Inline::Text("T".into())])
    );
    assert_eq!(
        presentation.slides[0].blocks[0],
        Block::Paragraph(vec![Inline::Text("Body".into())])
    );
}

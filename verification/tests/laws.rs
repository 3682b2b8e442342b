use std::path::Path;

use md2pptx::error::Error;
use md2pptx::markdown::parse_markdown;
use md2pptx::model::{Block, Inline};
use md2pptx::style::MathRenderer;

#[test]
fn byte_order_mark_changes_nothing() {
    let text = "# Deck\n\n- one\n- two\n---\nSecond";
    let plain = parse_markdown(text, Path::new("."), MathRenderer::Literal).unwrap();
    let marked = parse_markdown(&format!("\u{feff}{text}"), Path::new("."), MathRenderer::Literal)
        .unwrap();
    assert_eq!(plain, marked);
}

#[test]
fn unimplemented_renderers_refuse_any_deck() {
    for renderer in [
        MathRenderer::External,
        MathRenderer::Katex,
        MathRenderer::Typst,
        MathRenderer::Tectonic,
    ] {
        let err = parse_markdown("plain text", Path::new("."), renderer).unwrap_err();
        assert!(matches!(err, Error::UnsupportedFeature(_)));
    }
    let err = parse_markdown("", Path::new("."), MathRenderer::Katex).unwrap_err();
    assert!(matches!(err, Error::UnsupportedFeature("math renderer: katex")));
}

#[test]
fn first_level_one_heading_stays_the_title() {
    let presentation = parse_markdown(
        "# First\n\n# Second\n\ntext",
        Path::new("."),
        MathRenderer::Literal,
    )
    .unwrap();
    assert_eq!(
        presentation.slides[0].title,
        Some(vec![Inline::Text("First".into())])
    );
    assert_eq!(
        presentation.slides[0].blocks[0],
        Block::Paragraph(vec![Inline::Text("Second".into())])
    );
}

#[test]
fn headings_inside_columns_never_become_the_title() {
    let presentation = parse_markdown(
        "::: columns\n::: column\n# Left\n:::\n::: column\nRight\n:::\n:::",
        Path::new("."),
        MathRenderer::Literal,
    )
    .unwrap();
    assert_eq!(presentation.slides[0].title, None);
    let Block::Columns(columns) = &presentation.slides[0].blocks[0] else {
        panic!("expected columns block");
    };
    assert_eq!(columns.columns.len(), 2);
    assert_eq!(
        columns.columns[0].blocks[0],
        Block::Paragraph(vec![Inline::Text("Left".into())])
    );
}

#[test]
fn columns_need_exactly_two_columns() {
    let err = parse_markdown(
        "::: columns\n::: column\nA\n:::\n:::",
        Path::new("."),
        MathRenderer::Literal,
    )
    .unwrap_err();
    assert!(err
        .message()
        .contains("columns directive must contain exactly two column directives"));
    let err = parse_markdown(
        "::: columns\n::: column\nA\n:::\n::: column\nB\n:::\n::: column\nC\n:::\n:::",
        Path::new("."),
        MathRenderer::Literal,
    )
    .unwrap_err();
    assert!(err.message().contains("exactly two"));
}

#[test]
fn nested_columns_are_refused() {
    let err = parse_markdown(
        "::: columns\n::: column\n::: columns\n:::\n:::\n::: column\nB\n:::\n:::",
        Path::new("."),
        MathRenderer::Literal,
    )
    .unwrap_err();
    assert!(err.message().contains("nested columns"));
}

#[test]
fn plain_text_of_joined_runs_joins_their_texts() {
    let a = vec![Inline::Text("one ".into()), Inline::Bold("two".into())];
    let b = vec![Inline::Code(" three".into())];
    let joined: Vec<Inline> = a.iter().chain(b.iter()).cloned().collect();
    assert_eq!(
        Inline::plain_text(&joined),
        Inline::plain_text(&a) + &Inline::plain_text(&b)
    );
}

#[test]
fn separator_line_joins_two_decks() {
    let first = "# A\n\nBody";
    let second = "# B\n\n- item\n---\n# C";
    let joined = parse_markdown(
        &format!("{first}\n---\n{second}"),
        Path::new("."),
        MathRenderer::Literal,
    )
    .unwrap();
    let mut slides = parse_markdown(first, Path::new("."), MathRenderer::Literal)
        .unwrap()
        .slides;
    slides.extend(
        parse_markdown(second, Path::new("."), MathRenderer::Literal)
            .unwrap()
            .slides,
    );
    assert_eq!(joined.slides, slides);
    assert_eq!(joined.slides.len(), 3);
}

#[test]
fn separator_line_keeps_the_first_error() {
    let err = parse_markdown(
        "::: widget\n:::\n---\n::: other\n:::",
        Path::new("."),
        MathRenderer::Literal,
    )
    .unwrap_err();
    assert_eq!(err.message(), "invalid Markdown: unknown directive: widget");
}

#[test]
fn escaped_text_has_no_markup_characters() {
    let escaped = md2pptx::pptx::escape("<tag attr='x' other=\"y\">&</tag>");
    assert!(!escaped.contains('<'));
    assert!(!escaped.contains('>'));
    assert!(!escaped.contains('"'));
    assert!(!escaped.contains('\''));
}

#[test]
fn every_slide_is_listed_in_the_package_parts() {
    let count = 4;
    let xml = md2pptx::pptx::presentation_xml(count, md2pptx::style::SlideSize::Wide16x9);
    let rels = md2pptx::pptx::presentation_rels(count);
    let types = md2pptx::pptx::content_types(count, &[]);
    for i in 1..=count {
        assert!(xml.contains(&format!(r#"<p:sldId id="{}" r:id="rId{i}"/>"#, 255 + i)));
        assert!(rels.contains(&format!(r#"Id="rId{i}""#)));
        assert!(rels.contains(&format!(r#"Target="slides/slide{i}.xml""#)));
        assert!(types.contains(&format!(r#"PartName="/ppt/slides/slide{i}.xml""#)));
    }
    assert!(xml.contains(r#"r:id="rId5""#));
    assert!(rels.contains(r#"<Relationship Id="rId5" Type="http://schemas.openxmlformats.org/officeDocument/2006/relationships/slideMaster""#));
}

#[test]
fn every_non_blank_text_between_separators_is_a_slide() {
    let presentation = parse_markdown(
        "A\n---\n\n  ---  \nB\n---\n---\nC\n---",
        Path::new("."),
        MathRenderer::Literal,
    )
    .unwrap();
    assert_eq!(presentation.slides.len(), 3);
    assert_eq!(
        presentation.slides[2].blocks[0],
        Block::Paragraph(vec![Inline::Text("C".into())])
    );
}

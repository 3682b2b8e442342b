use std::path::Path;

use md2pptx::error::Error;
use md2pptx::markdown::parse_markdown;
use md2pptx::model::{Block, Inline, ListBlock, ListItem, TableAlignment, TableRow};
use md2pptx::style::MathRenderer;

#[test]
fn splits_slides_and_extracts_title() {
    let presentation = parse_markdown(
        "# One\n\nBody\n---\n# Two\n\n- A",
        Path::new("."),
        MathRenderer::Literal,
    )
    .unwrap();
    assert_eq!(presentation.slides.len(), 2);
    assert_eq!(
        Inline::plain_text(presentation.slides[0].title.as_ref().unwrap()),
        "One"
    );
}

#[test]
fn strips_utf8_bom_before_parsing_title() {
    let presentation = parse_markdown(
        "\u{feff}# Title\n\nBody",
        Path::new("."),
        MathRenderer::Literal,
    )
    .unwrap();

    assert_eq!(
        Inline::plain_text(presentation.slides[0].title.as_ref().unwrap()),
        "Title"
    );
    assert_eq!(
        presentation.slides[0].blocks[0],
        Block::Paragraph(vec![Inline::Text("Body".into())])
    );
}

#[test]
fn parses_mermaid_fenced_block() {
    let presentation = parse_markdown(
        "```mermaid\ngraph TD\n```",
        Path::new("."),
        MathRenderer::Literal,
    )
    .unwrap();
    assert_eq!(
        presentation.slides[0].blocks[0],
        Block::Mermaid {
            source: "graph TD\n".into()
        }
    );
}

#[test]
fn rejects_math_when_renderer_is_none() {
    let err = parse_markdown("$$\nx = 1\n$$", Path::new("."), MathRenderer::Disabled).unwrap_err();
    assert!(matches!(err, Error::UnsupportedFeature("math")));
}

#[test]
fn parses_inline_math_as_literal_math() {
    let presentation = parse_markdown(
        "Energy is $E = mc^2$.",
        Path::new("."),
        MathRenderer::Literal,
    )
    .unwrap();
    assert_eq!(
        presentation.slides[0].blocks[0],
        Block::Paragraph(vec![
            Inline::Text("Energy is ".into()),
            Inline::Math("E = mc^2".into()),
            Inline::Text(".".into()),
        ])
    );
}

#[test]
fn parses_display_math_as_literal_math_block() {
    let presentation =
        parse_markdown("$$\nx = 1\n$$", Path::new("."), MathRenderer::Literal).unwrap();
    assert_eq!(
        presentation.slides[0].blocks[0],
        Block::MathBlock("x = 1".into())
    );
}

#[test]
fn parses_fenced_math_as_literal_math_block() {
    let presentation =
        parse_markdown("```math\nx = 1\n```", Path::new("."), MathRenderer::Literal).unwrap();
    assert_eq!(
        presentation.slides[0].blocks[0],
        Block::MathBlock("x = 1\n".into())
    );
}

#[test]
fn parses_markdown_table() {
    let presentation = parse_markdown(
        "| Name | Count |\n| :--- | ---: |\n| A | 1 |\n| B | 2 |",
        Path::new("."),
        MathRenderer::Literal,
    )
    .unwrap();

    assert_eq!(
        presentation.slides[0].blocks[0],
        Block::Table {
            alignments: vec![TableAlignment::Left, TableAlignment::Right],
            rows: vec![
                TableRow {
                    is_header: true,
                    cells: vec![
                        vec![Inline::Text("Name".into())],
                        vec![Inline::Text("Count".into())],
                    ],
                },
                TableRow {
                    is_header: false,
                    cells: vec![
                        vec![Inline::Text("A".into())],
                        vec![Inline::Text("1".into())],
                    ],
                },
                TableRow {
                    is_header: false,
                    cells: vec![
                        vec![Inline::Text("B".into())],
                        vec![Inline::Text("2".into())],
                    ],
                },
            ],
        }
    );
}

#[test]
fn parses_nested_lists() {
    let presentation = parse_markdown(
        "- Parent\n  1. Child\n     - Grandchild",
        Path::new("."),
        MathRenderer::Literal,
    )
    .unwrap();

    assert_eq!(
        presentation.slides[0].blocks[0],
        Block::List(ListBlock {
            ordered: false,
            items: vec![ListItem {
                inlines: vec![Inline::Text("Parent".into())],
                children: vec![ListBlock {
                    ordered: true,
                    items: vec![ListItem {
                        inlines: vec![Inline::Text("Child".into())],
                        children: vec![ListBlock {
                            ordered: false,
                            items: vec![ListItem {
                                inlines: vec![Inline::Text("Grandchild".into())],
                                children: vec![],
                            }],
                        }],
                    }],
                }],
            }],
        })
    );
}

#[test]
fn preserves_inline_code_inside_list_items() {
    let presentation = parse_markdown(
        "- Split with `---` marker",
        Path::new("."),
        MathRenderer::Literal,
    )
    .unwrap();

    assert_eq!(
        presentation.slides[0].blocks[0],
        Block::List(ListBlock {
            ordered: false,
            items: vec![ListItem {
                inlines: vec![
                    Inline::Text("Split with ".into()),
                    Inline::Code("---".into()),
                    Inline::Text(" marker".into()),
                ],
                children: vec![],
            }],
        })
    );
}

#[test]
fn parses_body_headings_with_levels() {
    let presentation = parse_markdown(
        "# Title\n\n## Section\n\n### Detail\n\n# Extra",
        Path::new("."),
        MathRenderer::Literal,
    )
    .unwrap();

    assert_eq!(
        presentation.slides[0].blocks,
        vec![
            Block::Heading {
                level: 2,
                inlines: vec![Inline::Text("Section".into())],
            },
            Block::Heading {
                level: 3,
                inlines: vec![Inline::Text("Detail".into())],
            },
            Block::Paragraph(vec![Inline::Text("Extra".into())]),
        ]
    );
}

#[test]
fn parses_columns_directive() {
    let presentation = parse_markdown(
        "# Title\n\n::: columns\n::: column\n## Left\n\n- A\n:::\n::: column\nRight text\n:::\n:::",
        Path::new("."),
        MathRenderer::Literal,
    )
    .unwrap();

    assert_eq!(presentation.slides[0].blocks.len(), 1);
    let Block::Columns(columns) = &presentation.slides[0].blocks[0] else {
        panic!("expected columns block");
    };
    assert_eq!(columns.columns.len(), 2);
    assert_eq!(
        columns.columns[0].blocks[0],
        Block::Heading {
            level: 2,
            inlines: vec![Inline::Text("Left".into())],
        }
    );
    assert_eq!(
        columns.columns[1].blocks[0],
        Block::Paragraph(vec![Inline::Text("Right text".into())])
    );
}

#[test]
fn rejects_columns_with_non_column_content() {
    let err = parse_markdown(
        "::: columns\nPlain text\n:::\n",
        Path::new("."),
        MathRenderer::Literal,
    )
    .unwrap_err();

    assert!(err.message().contains("columns directive"));
}

#[test]
fn rejects_unterminated_directive() {
    let err = parse_markdown(
        "::: columns\n::: column\nLeft",
        Path::new("."),
        MathRenderer::Literal,
    )
    .unwrap_err();

    assert!(err.message().contains("unterminated directive"));
}

#[test]
fn rejects_unknown_directive_attribute_after_parsing_quoted_value() {
    let err = parse_markdown(
        "::: columns label=\"two columns\"\n::: column\nLeft\n:::\n::: column\nRight\n:::\n:::",
        Path::new("."),
        MathRenderer::Literal,
    )
    .unwrap_err();

    assert!(err.message().contains("unknown attribute"));
}

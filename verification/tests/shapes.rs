use md2pptx::model::{Inline, TableAlignment};
use md2pptx::pptx::{image_shape, runs, shape, slide_xml, table_cell_shape, Frame, RunFormat};

fn frame() -> Frame {
    Frame {
        x: 508000,
        y: -12700,
        width: 11176000,
        height: 0,
    }
}

#[test]
fn text_shapes_carry_id_frame_fill_and_runs() {
    let xml = shape(7, &frame(), Some("#f5f5f5"), "<a:r/>");
    assert!(xml.contains(r#"<p:cNvPr id="7" name="Text 7"/>"#));
    assert!(xml.contains(r#"<a:off x="508000" y="-12700"/><a:ext cx="11176000" cy="0"/>"#));
    assert!(xml.contains(r#"<a:solidFill><a:srgbClr val="F5F5F5"/></a:solidFill><a:ln><a:noFill/></a:ln>"#));
    assert!(xml.contains("<a:p><a:r/></a:p>"));
    let plain = shape(2, &frame(), None, "");
    assert!(plain.contains("<a:noFill/><a:ln>"));
}

#[test]
fn header_cells_are_shaded_and_aligned() {
    let header = table_cell_shape(3, &frame(), TableAlignment::Right, true, "");
    assert!(header.contains(r#"name="Table Cell 3""#));
    assert!(header.contains(r#"<a:srgbClr val="EEF1F5"/>"#));
    assert!(header.contains(r#"<a:p><a:pPr algn="r"/></a:p>"#));
    let body = table_cell_shape(4, &frame(), TableAlignment::Left, false, "");
    assert!(body.contains(r#"<a:srgbClr val="FFFFFF"/>"#));
    assert!(body.contains("<a:p></a:p>"));
}

#[test]
fn pictures_embed_their_relationship() {
    let xml = image_shape(9, &frame(), 1, "a <chart>");
    assert!(xml.contains(r#"r:embed="rId2""#));
    assert!(xml.contains(r#"name="a &lt;chart&gt;""#));
}

#[test]
fn slides_carry_their_background() {
    let xml = slide_xml(" #ffffff", "<p:sp/>");
    assert!(xml.starts_with("<?xml version=\"1.0\""));
    assert!(xml.contains(r#"<a:srgbClr val="FFFFFF"/></a:solidFill><a:effectLst/>"#));
    assert!(xml.contains("\n      <p:sp/>\n    </p:spTree>"));
}

#[test]
fn runs_apply_emphasis_and_code_format() {
    let style = RunFormat {
        font_family: "Arial".into(),
        size: 2200,
        color: "#222222".into(),
        bold: false,
        italic: false,
    };
    let code = RunFormat {
        font_family: "Consolas".into(),
        size: 2000,
        color: "#c7254e".into(),
        bold: false,
        italic: false,
    };
    let xml = runs(
        &[
            Inline::Text("a&b".into()),
            Inline::Bold("B".into()),
            Inline::Math("x".into()),
        ],
        &style,
        Some(&code),
        false,
        false,
    );
    assert_eq!(
        xml,
        [
            r#"<a:r><a:rPr lang="en-US" sz="2200"><a:solidFill><a:srgbClr val="222222"/></a:solidFill><a:latin typeface="Arial"/></a:rPr><a:t>a&amp;b</a:t></a:r>"#,
            r#"<a:r><a:rPr lang="en-US" sz="2200" b="1"><a:solidFill><a:srgbClr val="222222"/></a:solidFill><a:latin typeface="Arial"/></a:rPr><a:t>B</a:t></a:r>"#,
            r#"<a:r><a:rPr lang="en-US" sz="2000"><a:solidFill><a:srgbClr val="C7254E"/></a:solidFill><a:latin typeface="Consolas"/></a:rPr><a:t>x</a:t></a:r>"#,
        ]
        .concat()
    );
    let italic = runs(&[Inline::Italic("i".into())], &style, None, true, false);
    assert!(italic.contains(r#"sz="2200" b="1" i="1""#));
}

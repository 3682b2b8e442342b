use std::path::PathBuf;

use md2pptx::error::Error;
use md2pptx::pptx::{
    color, content_types, escape, image_content_type, image_dimensions, jpeg_dimensions,
    media_part_name, png_dimensions, presentation_rels, presentation_xml, slide_part_name,
    slide_rels, slide_rels_part_name, ImageDimensions, MediaFile,
};
use md2pptx::style::SlideSize;

fn png_header(width: u32, height: u32) -> Vec<u8> {
    let mut bytes = b"\x89PNG\r\n\x1a\n\0\0\0\rIHDR".to_vec();
    bytes.extend_from_slice(&width.to_be_bytes());
    bytes.extend_from_slice(&height.to_be_bytes());
    bytes
}

#[test]
fn reads_png_dimensions() {
    let bytes = [
        0x89, b'P', b'N', b'G', b'\r', b'\n', 0x1a, b'\n', 0, 0, 0, 13, b'I', b'H', b'D', b'R', 0,
        0, 1, 0x40, 0, 0, 0, 0xf0,
    ];
    let dimensions = png_dimensions(&bytes).unwrap();
    assert_eq!(dimensions.width, 320);
    assert_eq!(dimensions.height, 240);
}

#[test]
fn reads_jpeg_dimensions() {
    let bytes = [
        0xff, 0xd8, 0xff, 0xe0, 0x00, 0x04, 0x00, 0x00, 0xff, 0xc0, 0x00, 0x0b, 0x08, 0x01, 0x2c,
        0x01, 0x90, 0x03, 0x01, 0x11, 0x00,
    ];
    let dimensions = jpeg_dimensions(&bytes).unwrap();
    assert_eq!(dimensions.width, 400);
    assert_eq!(dimensions.height, 300);
}

#[test]
fn refuses_png_with_zero_side() {
    assert_eq!(png_dimensions(&png_header(0, 10)), None);
    assert_eq!(png_dimensions(&png_header(10, 0)), None);
}

#[test]
fn refuses_short_or_foreign_png() {
    assert_eq!(png_dimensions(&png_header(5, 6)[..23]), None);
    let mut bytes = png_header(5, 6);
    bytes[12] = b'X';
    assert_eq!(png_dimensions(&bytes), None);
    bytes = png_header(5, 6);
    bytes[0] = 0;
    assert_eq!(png_dimensions(&bytes), None);
}

#[test]
fn reads_large_png_dimensions() {
    let dimensions = png_dimensions(&png_header(0x0102_0304, 0xffff_ffff)).unwrap();
    assert_eq!(
        dimensions,
        ImageDimensions {
            width: 0x0102_0304,
            height: 0xffff_ffff
        }
    );
}

#[test]
fn jpeg_scan_stops_at_start_of_scan() {
    let bytes = [
        0xff, 0xd8, 0xff, 0xda, 0x00, 0x04, 0x00, 0x00, 0xff, 0xc0, 0x00, 0x0b, 0x08, 0x01, 0x2c,
        0x01, 0x90, 0x03, 0x01, 0x11, 0x00,
    ];
    assert_eq!(jpeg_dimensions(&bytes), None);
}

#[test]
fn jpeg_without_start_of_image_is_refused() {
    let bytes = [0xff, 0xd9, 0xff, 0xc0, 0x00, 0x0b, 0x08, 0x01, 0x2c, 0x01, 0x90];
    assert_eq!(jpeg_dimensions(&bytes), None);
}

#[test]
fn jpeg_with_short_frame_segment_is_refused() {
    let bytes = [
        0xff, 0xd8, 0xff, 0xc2, 0x00, 0x06, 0x08, 0x01, 0x2c, 0x01, 0x90, 0x00,
    ];
    assert_eq!(jpeg_dimensions(&bytes), None);
}

#[test]
fn image_dimensions_follow_the_extension() {
    let png = png_header(3, 4);
    assert_eq!(
        image_dimensions("png", &png),
        Some(ImageDimensions {
            width: 3,
            height: 4
        })
    );
    assert_eq!(image_dimensions("jpg", &png), None);
    assert_eq!(image_dimensions("gif", &png), None);
}

#[test]
fn escapes_markup_characters() {
    assert_eq!(
        escape("a < b & \"c\" > 'd'"),
        "a &lt; b &amp; &quot;c&quot; &gt; &apos;d&apos;"
    );
    assert_eq!(escape("plain text"), "plain text");
    assert_eq!(escape("&amp;"), "&amp;amp;");
}

#[test]
fn normalizes_colors() {
    assert_eq!(color(" #eef1f5 "), "EEF1F5");
    assert_eq!(color("##abc123"), "ABC123");
    assert_eq!(color("C9CDD3"), "C9CDD3");
}

#[test]
fn presentation_relationships_put_master_after_slides() {
    let rels = presentation_rels(2);
    assert!(rels.contains(
        r#"<Relationship Id="rId1" Type="http://schemas.openxmlformats.org/officeDocument/2006/relationships/slide" Target="slides/slide1.xml"/>"#
    ));
    assert!(rels.contains(
        r#"<Relationship Id="rId2" Type="http://schemas.openxmlformats.org/officeDocument/2006/relationships/slide" Target="slides/slide2.xml"/>"#
    ));
    assert!(rels.contains(
        r#"<Relationship Id="rId3" Type="http://schemas.openxmlformats.org/officeDocument/2006/relationships/slideMaster" Target="slideMasters/slideMaster1.xml"/>"#
    ));
}

#[test]
fn presentation_xml_refers_to_master_and_slides() {
    let xml = presentation_xml(2, SlideSize::Wide16x9);
    assert!(xml.contains(r#"<p:sldMasterId id="2147483648" r:id="rId3"/>"#));
    assert!(xml.contains(r#"<p:sldId id="256" r:id="rId1"/><p:sldId id="257" r:id="rId2"/>"#));
    assert!(xml.contains(r#"<p:sldSz cx="12192000" cy="6858000" type="screen16x9"/>"#));
    let standard = presentation_xml(1, SlideSize::Standard4x3);
    assert!(standard.contains(r#"<p:sldSz cx="9144000" cy="6858000""#));
}

fn media(number: usize, path: &str, extension: &str, bytes: Vec<u8>) -> MediaFile {
    MediaFile::new(1, number, PathBuf::from(path), extension, bytes).unwrap()
}

#[test]
fn content_types_list_slides_and_image_types() {
    let none = content_types(2, &[]);
    assert!(none.contains(r#"PartName="/ppt/slides/slide2.xml""#));
    assert!(!none.contains(r#"Extension="png""#));
    assert!(none.contains(
        r#"PartName="/ppt/theme/theme1.xml" ContentType="application/vnd.openxmlformats-officedocument.theme+xml""#
    ));
    let with_png = content_types(1, &[media(1, "chart.png", "PNG", png_header(320, 160))]);
    assert!(with_png.contains(r#"<Default Extension="png" ContentType="image/png"/>"#));
    assert!(!with_png.contains(r#"Extension="jpeg""#));
}

#[test]
fn slide_relationships_number_images_from_two() {
    let rels = slide_rels(&[
        media(4, "a.png", "png", png_header(1, 1)),
        media(5, "b.png", "png", png_header(2, 2)),
    ]);
    assert!(rels.contains(
        r#"Id="rId2" Type="http://schemas.openxmlformats.org/officeDocument/2006/relationships/image" Target="../media/image4.png""#
    ));
    assert!(rels.contains(r#"Id="rId3""#));
    assert!(rels.contains(r#"Target="../media/image5.png""#));
    assert!(rels.contains(
        r#"Type="http://schemas.openxmlformats.org/officeDocument/2006/relationships/slideLayout" Target="../slideLayouts/slideLayout1.xml""#
    ));
}

#[test]
fn names_package_parts() {
    assert_eq!(slide_part_name(3), "ppt/slides/slide3.xml");
    assert_eq!(slide_rels_part_name(3), "ppt/slides/_rels/slide3.xml.rels");
    let image = media(7, "photo.JPG", "JPG", vec![
        0xff, 0xd8, 0xff, 0xc0, 0x00, 0x0b, 0x08, 0x00, 0x02, 0x00, 0x03, 0x03, 0x01, 0x11, 0x00,
    ]);
    assert_eq!(media_part_name(&image), "ppt/media/image7.jpg");
    assert_eq!(image.content_type, "image/jpeg");
    assert_eq!(image.dimensions, Some(ImageDimensions { width: 3, height: 2 }));
}

#[test]
fn recognizes_image_content_types() {
    assert_eq!(image_content_type("PNG"), Some("image/png"));
    assert_eq!(image_content_type("jpeg"), Some("image/jpeg"));
    assert_eq!(image_content_type("svg"), Some("image/svg+xml"));
    assert_eq!(image_content_type("SVG"), Some("image/svg+xml"));
    assert_eq!(image_content_type("gif"), None);
}

#[test]
fn media_file_accepts_svg_drawings_without_dimensions() {
    let drawing = br#"<svg xmlns="http://www.w3.org/2000/svg" width="10" height="5"/>"#.to_vec();
    let image = media(3, "flow.SVG", "SVG", drawing.clone());
    assert_eq!(image.content_type, "image/svg+xml");
    assert_eq!(image.extension, "svg");
    assert_eq!(image.dimensions, None);
    assert_eq!(image.bytes, drawing);
    assert_eq!(media_part_name(&image), "ppt/media/image3.svg");
}

#[test]
fn content_types_list_svg_drawings() {
    let with_svg = content_types(1, &[media(1, "flow.svg", "svg", b"<svg/>".to_vec())]);
    assert!(with_svg.contains(r#"<Default Extension="svg" ContentType="image/svg+xml"/>"#));
    assert!(!with_svg.contains(r#"Extension="png""#));
}

#[test]
fn media_file_refuses_unknown_or_unreadable_images() {
    let err = MediaFile::new(1, 1, PathBuf::from("x.gif"), "gif", vec![]).err().unwrap();
    assert!(matches!(err, Error::UnsupportedImageFormat(_)));
    let err = MediaFile::new(1, 1, PathBuf::from("x.png"), "png", vec![1, 2, 3]).err().unwrap();
    assert!(matches!(err, Error::UnsupportedImageFormat(_)));
}

#[test]
fn image_errors_name_the_file() {
    let err = MediaFile::new(1, 1, PathBuf::from("pics/x.gif"), "gif", vec![]).err().unwrap();
    assert_eq!(err.message(), "unsupported image format: pics/x.gif");
    let missing = Error::MissingImage(PathBuf::from("pics/gone.png"));
    assert_eq!(missing.message(), "missing image file: pics/gone.png");
}

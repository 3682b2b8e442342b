use std::io::{Cursor, Read};
use std::path::PathBuf;

use md2pptx::pptx::{package, MediaFile};
use md2pptx::style::SlideSize;
use zip::ZipArchive;

fn png_header(width: u32, height: u32) -> Vec<u8> {
    let mut bytes = b"\x89PNG\r\n\x1a\n\0\0\0\rIHDR".to_vec();
    bytes.extend_from_slice(&width.to_be_bytes());
    bytes.extend_from_slice(&height.to_be_bytes());
    bytes
}

fn read_part(archive: &mut ZipArchive<Cursor<Vec<u8>>>, name: &str) -> Vec<u8> {
    let mut file = archive.by_name(name).unwrap();
    let mut content = Vec::new();
    file.read_to_end(&mut content).unwrap();
    content
}

#[test]
fn package_holds_every_part() {
    let slides = vec!["<first/>".to_string(), "<second/>".to_string()];
    let bytes = package(&slides, SlideSize::Wide16x9, &[vec![], vec![]]).unwrap();
    assert!(bytes.starts_with(b"PK"));
    let mut archive = ZipArchive::new(Cursor::new(bytes)).unwrap();
    for name in [
        "[Content_Types].xml",
        "_rels/.rels",
        "docProps/app.xml",
        "docProps/core.xml",
        "ppt/presentation.xml",
        "ppt/_rels/presentation.xml.rels",
        "ppt/slideMasters/slideMaster1.xml",
        "ppt/slideMasters/_rels/slideMaster1.xml.rels",
        "ppt/slideLayouts/slideLayout1.xml",
        "ppt/slideLayouts/_rels/slideLayout1.xml.rels",
        "ppt/theme/theme1.xml",
        "ppt/slides/slide1.xml",
        "ppt/slides/_rels/slide1.xml.rels",
        "ppt/slides/slide2.xml",
        "ppt/slides/_rels/slide2.xml.rels",
    ] {
        assert!(archive.by_name(name).is_ok(), "missing PPTX part: {name}");
    }
    assert_eq!(archive.len(), 15);
    assert_eq!(read_part(&mut archive, "ppt/slides/slide2.xml"), b"<second/>");
    let presentation = String::from_utf8(read_part(&mut archive, "ppt/presentation.xml")).unwrap();
    assert!(presentation.contains(r#"<p:sldMasterId id="2147483648" r:id="rId3"/>"#));
}

#[test]
fn package_stores_images_of_each_slide() {
    let image = MediaFile::new(2, 1, PathBuf::from("chart.png"), "png", png_header(320, 160))
        .unwrap();
    let slides = vec!["<a/>".to_string(), "<b/>".to_string()];
    let bytes = package(&slides, SlideSize::Standard4x3, &[vec![], vec![image]]).unwrap();
    let mut archive = ZipArchive::new(Cursor::new(bytes)).unwrap();
    assert_eq!(read_part(&mut archive, "ppt/media/image1.png"), png_header(320, 160));
    let types = String::from_utf8(read_part(&mut archive, "[Content_Types].xml")).unwrap();
    assert!(types.contains(r#"<Default Extension="png" ContentType="image/png"/>"#));
    let rels = String::from_utf8(read_part(&mut archive, "ppt/slides/_rels/slide2.xml.rels")).unwrap();
    assert!(rels.contains(r#"Id="rId2" Type="http://schemas.openxmlformats.org/officeDocument/2006/relationships/image" Target="../media/image1.png""#));
    let first = String::from_utf8(read_part(&mut archive, "ppt/slides/_rels/slide1.xml.rels")).unwrap();
    assert!(!first.contains("image"));
}

#[test]
fn package_stores_svg_drawings() {
    let image = MediaFile::new(1, 1, PathBuf::from("flow.svg"), "svg", b"<svg/>".to_vec()).unwrap();
    let slides = vec!["<a/>".to_string()];
    let bytes = package(&slides, SlideSize::Wide16x9, &[vec![image]]).unwrap();
    let mut archive = ZipArchive::new(Cursor::new(bytes)).unwrap();
    assert_eq!(read_part(&mut archive, "ppt/media/image1.svg"), b"<svg/>");
    let types = String::from_utf8(read_part(&mut archive, "[Content_Types].xml")).unwrap();
    assert!(types.contains(r#"<Default Extension="svg" ContentType="image/svg+xml"/>"#));
}

#[test]
fn package_refuses_two_images_with_one_number() {
    let first = MediaFile::new(1, 1, PathBuf::from("a.png"), "png", png_header(2, 2)).unwrap();
    let second = MediaFile::new(1, 1, PathBuf::from("b.png"), "png", png_header(3, 3)).unwrap();
    let slides = vec!["<a/>".to_string()];
    let err = package(&slides, SlideSize::Wide16x9, &[vec![first, second]]).unwrap_err();
    assert!(matches!(err, md2pptx::error::Error::Zip(_)));
}

#[test]
fn package_of_no_slides_has_the_fixed_parts() {
    let bytes = package(&[], SlideSize::Wide16x9, &[]).unwrap();
    let archive = ZipArchive::new(Cursor::new(bytes)).unwrap();
    assert_eq!(archive.len(), 11);
}

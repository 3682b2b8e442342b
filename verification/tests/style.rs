use md2pptx::error::Error;
use md2pptx::style::{validate_color, validate_font_family, MathRenderer, MathStyle, SlideSize};

#[test]
fn accepts_hex_colors_with_or_without_hash() {
    assert!(validate_color("body.color", "#a1B2c3").is_ok());
    assert!(validate_color("body.color", "  ffffff ").is_ok());
}

#[test]
fn refuses_color_names_and_short_codes() {
    let err = validate_color("body.color", "blue").unwrap_err();
    assert!(matches!(err, Error::InvalidStyle(_)));
    assert_eq!(
        err.message(),
        "invalid style value: body.color must be a hex RGB color such as #RRGGBB or RRGGBB"
    );
    assert!(validate_color("slide.background", "#fff").is_err());
    assert!(validate_color("slide.background", "##ffffff").is_err());
}

#[test]
fn refuses_blank_font_family() {
    let err = validate_font_family("title", " ").unwrap_err();
    assert!(err.message().contains("title.font_family"));
    assert!(validate_font_family("title", "Arial").is_ok());
}

#[test]
fn math_renders_literally_by_default() {
    assert_eq!(MathStyle::default().renderer, MathRenderer::Literal);
}

#[test]
fn slide_sizes_in_emu() {
    assert_eq!(SlideSize::Wide16x9.dimensions_emu(), (12192000, 6858000));
    assert_eq!(SlideSize::Standard4x3.dimensions_emu(), (9144000, 6858000));
}

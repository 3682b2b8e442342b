//! Errors that the library reports.
use vstd::prelude::*;
use vstd::string::*;

use std::path::PathBuf;

use zip::result::ZipError;

use crate::paths::{display_path, displayed_path};

verus! {

/// Why a conversion step was refused.
#[derive(Debug)]
pub enum Error {
    Io(std::io::Error),
    Zip(ZipError),
    UnsupportedFeature(&'static str),
    InvalidMarkdown(String),
    InvalidStyle(String),
    MissingImage(PathBuf),
    UnsupportedImageFormat(PathBuf),
    MermaidRendererNotFound(String),
    MermaidRendererFailed(String),
    InvalidMermaidOutput(String),
}

/// The view of an error; an image path and an I/O or archive error are
/// carried as they are.
pub enum ErrorView {
    Io(std::io::Error),
    Zip(ZipError),
    UnsupportedFeature(Seq<char>),
    InvalidMarkdown(Seq<char>),
    InvalidStyle(Seq<char>),
    MissingImage(PathBuf),
    UnsupportedImageFormat(PathBuf),
    MermaidRendererNotFound(Seq<char>),
    MermaidRendererFailed(Seq<char>),
    InvalidMermaidOutput(Seq<char>),
}

impl View for Error {
    type V = ErrorView;

    open spec fn view(&self) -> ErrorView {
        match self {
            Error::Io(e) => ErrorView::Io(*e),
            Error::Zip(e) => ErrorView::Zip(*e),
            Error::UnsupportedFeature(s) => ErrorView::UnsupportedFeature(s@),
            Error::InvalidMarkdown(s) => ErrorView::InvalidMarkdown(s@),
            Error::InvalidStyle(s) => ErrorView::InvalidStyle(s@),
            Error::MissingImage(p) => ErrorView::MissingImage(*p),
            Error::UnsupportedImageFormat(p) => ErrorView::UnsupportedImageFormat(*p),
            Error::MermaidRendererNotFound(s) => ErrorView::MermaidRendererNotFound(s@),
            Error::MermaidRendererFailed(s) => ErrorView::MermaidRendererFailed(s@),
            Error::InvalidMermaidOutput(s) => ErrorView::InvalidMermaidOutput(s@),
        }
    }
}

/// `std::io::Error`'s `Display` text. Nothing is claimed of it: it comes
/// from the operating system's description of the error.
#[verifier::external_body]
fn io_error_text(e: &std::io::Error) -> String {
    e.to_string()
}

/// `zip::result::ZipError`'s `Display` text. Nothing is claimed of it: for
/// an I/O failure it holds the operating system's description.
#[verifier::external_body]
fn zip_error_text(e: &ZipError) -> String {
    e.to_string()
}

/// The fixed start of an error's message.
pub open spec fn error_label(e: ErrorView) -> Seq<char> {
    match e {
        ErrorView::Io(_) => "I/O error: "@,
        ErrorView::Zip(_) => "ZIP write error: "@,
        ErrorView::UnsupportedFeature(_) => "unsupported feature: "@,
        ErrorView::InvalidMarkdown(_) => "invalid Markdown: "@,
        ErrorView::InvalidStyle(_) => "invalid style value: "@,
        ErrorView::MissingImage(_) => "missing image file: "@,
        ErrorView::UnsupportedImageFormat(_) => "unsupported image format: "@,
        ErrorView::MermaidRendererNotFound(_) => "Mermaid renderer not found: "@,
        ErrorView::MermaidRendererFailed(_) => "Mermaid renderer failed: "@,
        ErrorView::InvalidMermaidOutput(_) => "invalid Mermaid renderer output: "@,
    }
}

/// The human-readable message of an error that carries text or a path; an
/// I/O or ZIP error is seen by its label only.
pub open spec fn error_message(e: ErrorView) -> Seq<char> {
    match e {
        ErrorView::Io(_) => "I/O error: "@,
        ErrorView::Zip(_) => "ZIP write error: "@,
        ErrorView::UnsupportedFeature(s) => "unsupported feature: "@ + s,
        ErrorView::InvalidMarkdown(s) => "invalid Markdown: "@ + s,
        ErrorView::InvalidStyle(s) => "invalid style value: "@ + s,
        ErrorView::MissingImage(p) => "missing image file: "@ + displayed_path(&p),
        ErrorView::UnsupportedImageFormat(p) => "unsupported image format: "@ + displayed_path(&p),
        ErrorView::MermaidRendererNotFound(s) => "Mermaid renderer not found: "@ + s,
        ErrorView::MermaidRendererFailed(s) => "Mermaid renderer failed: "@ + s,
        ErrorView::InvalidMermaidOutput(s) => "invalid Mermaid renderer output: "@ + s,
    }
}

impl Error {
    /// The message shown to users for this error. The message of an image
    /// error ends with the path as `Path::display` shows it.
    pub fn message(&self) -> (res: String)
        ensures
            !(self is Io || self is Zip) ==> res@ == error_message(self@),
            res@.len() >= error_label(self@).len(),
            res@.subrange(0, error_label(self@).len() as int) == error_label(self@),
    {
        match self {
            Error::Io(e) => String::from_str("I/O error: ").concat(io_error_text(e).as_str()),
            Error::Zip(e) => String::from_str("ZIP write error: ").concat(zip_error_text(e).as_str()),
            Error::UnsupportedFeature(s) => String::from_str("unsupported feature: ").concat(s),
            Error::InvalidMarkdown(s) => String::from_str("invalid Markdown: ").concat(s.as_str()),
            Error::InvalidStyle(s) => String::from_str("invalid style value: ").concat(s.as_str()),
            Error::MissingImage(p) => String::from_str("missing image file: ").concat(
                display_path(p).as_str(),
            ),
            Error::UnsupportedImageFormat(p) => String::from_str("unsupported image format: ").concat(
                display_path(p).as_str(),
            ),
            Error::MermaidRendererNotFound(s) => String::from_str(
                "Mermaid renderer not found: ",
            ).concat(s.as_str()),
            Error::MermaidRendererFailed(s) => String::from_str("Mermaid renderer failed: ").concat(
                s.as_str(),
            ),
            Error::InvalidMermaidOutput(s) => String::from_str(
                "invalid Mermaid renderer output: ",
            ).concat(s.as_str()),
        }
    }
}

} // verus!

//! PDF page counting.
//!
//! A PDF candidate's pages are counted by parsing the document structure;
//! no page is rasterized here, and thumbnails for PDF pages are rendered by
//! an external collaborator.

use vstd::prelude::*;

verus! {

/// The number of pages the bytes parse to, when they parse as a PDF
/// document at all.
pub uninterp spec fn pdf_page_count_of(data: Seq<u8>) -> Option<nat>;

/// Relies on `lopdf::Document::load_from` and `Document::get_pages`:
/// with the crate's parallel parsing feature left off, the sequential
/// parse and the page map are functions of the bytes alone.
#[verifier::external_body]
fn pdf_count_pages_raw(data: &Vec<u8>) -> (r: Result<usize, String>)
    ensures
        r matches Ok(n) ==> pdf_page_count_of(data@) == Some(n as nat),
        r is Err ==> pdf_page_count_of(data@) is None,
{
    match lopdf::Document::load_from(data.as_slice()) {
        Ok(doc) => Ok(doc.get_pages().len()),
        Err(e) => Err(format!("failed to parse pdf document: {e}")),
    }
}

/// The page count of a PDF document given as bytes; fails exactly when the
/// bytes do not parse as a PDF document.
pub fn count_pdf_pages(data: &Vec<u8>) -> (r: Result<usize, String>)
    ensures
        r matches Ok(n) ==> pdf_page_count_of(data@) == Some(n as nat),
        r is Err <==> pdf_page_count_of(data@) is None,
{
    pdf_count_pages_raw(data)
}

} // verus!

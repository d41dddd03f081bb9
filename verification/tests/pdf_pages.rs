use comic_shelf::index::build_pdf_pages;
use comic_shelf::pdf::count_pdf_pages;
use comic_shelf::scan::SourceType;

use lopdf::{Dictionary, Document, Object};

fn make_pdf(page_count: usize) -> Vec<u8> {
    let mut doc = Document::with_version("1.5");
    let pages_id = doc.new_object_id();
    let mut kids: Vec<Object> = Vec::new();
    for _ in 0..page_count {
        let mut page = Dictionary::new();
        page.set("Type", Object::Name(b"Page".to_vec()));
        page.set("Parent", Object::Reference(pages_id));
        let page_id = doc.add_object(Object::Dictionary(page));
        kids.push(Object::Reference(page_id));
    }
    let mut pages = Dictionary::new();
    pages.set("Type", Object::Name(b"Pages".to_vec()));
    pages.set("Count", Object::Integer(page_count as i64));
    pages.set("Kids", Object::Array(kids));
    doc.objects.insert(pages_id, Object::Dictionary(pages));
    let mut catalog = Dictionary::new();
    catalog.set("Type", Object::Name(b"Catalog".to_vec()));
    catalog.set("Pages", Object::Reference(pages_id));
    let catalog_id = doc.add_object(Object::Dictionary(catalog));
    doc.trailer.set("Root", Object::Reference(catalog_id));
    let mut out: Vec<u8> = Vec::new();
    doc.save_to(&mut out).unwrap();
    out
}

#[test]
fn page_counting_parses_the_document() {
    let data = make_pdf(2);
    assert_eq!(count_pdf_pages(&data).unwrap(), 2);
    let bigger = make_pdf(5);
    assert_eq!(count_pdf_pages(&bigger).unwrap(), 5);
}

#[test]
fn unparsable_bytes_fail_page_counting() {
    let junk = vec![9u8, 9, 9, 9];
    assert!(count_pdf_pages(&junk).is_err());
}

#[test]
fn pdf_pages_carry_numbers_but_no_thumbnails() {
    let data = make_pdf(3);
    let pages = build_pdf_pages("/lib/Book.pdf", &data).unwrap();
    assert_eq!(pages.len(), 3);
    for (i, p) in pages.iter().enumerate() {
        assert_eq!(p.page_number, (i as i64) + 1);
        assert_eq!(p.pdf_page_number, Some((i as i64) + 1));
        assert_eq!(p.source_type, SourceType::Pdf);
        assert_eq!(p.file_path, "/lib/Book.pdf");
        assert_eq!(p.thumbnail_path, None);
        assert_eq!(p.archive_entry_path, None);
    }
    assert_eq!(pages[0].file_name, "page-1.pdf");
    assert_eq!(pages[2].file_name, "page-3.pdf");
}

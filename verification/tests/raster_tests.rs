use base64::Engine;
use vaulty::raster::{assemble_pages, candidate_page_filenames, page_data_url, placeholder_pages};

#[test]
fn candidate_filenames_cover_the_naming_conventions() {
    let names = candidate_page_filenames(3);
    assert_eq!(names, vec!["page-3.png", "page-03.png", "page-003.png", "3.png"]);
    let names12 = candidate_page_filenames(12);
    assert_eq!(names12, vec!["page-12.png", "page-12.png", "page-012.png", "12.png"]);
}

#[test]
fn data_url_embeds_real_base64() {
    let url = page_data_url(&vec![b'h', b'i']);
    assert_eq!(url, "data:image/png;base64,aGk=");
    let payload = url.strip_prefix("data:image/png;base64,").unwrap();
    let back = base64::engine::general_purpose::STANDARD.decode(payload).unwrap();
    assert_eq!(back, b"hi");
}

#[test]
fn assemble_returns_one_url_per_found_page() {
    let pages = vec![Some(vec![1u8, 2]), Some(vec![3u8]), Some(vec![4u8, 5, 6])];
    let (urls, missing) = assemble_pages(&pages);
    assert_eq!(urls.len(), 3);
    assert!(missing.is_empty());
    assert!(urls[0].starts_with("data:image/png;base64,"));
}

#[test]
fn assemble_reports_missing_pages_as_warnings() {
    let pages = vec![Some(vec![1u8]), None, Some(vec![2u8]), None];
    let (urls, missing) = assemble_pages(&pages);
    assert_eq!(urls.len(), 2);
    assert_eq!(missing, vec![2, 4]);
}

#[test]
fn placeholders_cover_every_page_with_real_png() {
    let pages = placeholder_pages(3, 12, 16, 255);
    assert_eq!(pages.len(), 3);
    assert_eq!(pages[0], pages[2]);
    let payload = pages[0].strip_prefix("data:image/png;base64,").unwrap();
    let bytes = base64::engine::general_purpose::STANDARD.decode(payload).unwrap();
    assert_eq!(&bytes[..8], &[0x89, b'P', b'N', b'G', 0x0d, 0x0a, 0x1a, 0x0a]);
}

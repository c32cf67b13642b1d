use std::io::{Cursor, Read, Write};

use readingcomics::archive::{
    detect, is_comic, is_image, is_metadata_entry, list_pages, metadata_entry_index, mime_for,
    normalize_entry_name, page_not_found, rar_error, read_metadata, read_page, read_pages, pages_read, reader_for,
    unsupported, wanted_page, ArchiveEntry, ArchiveKind, Format, PageLookup, RarCode,
};

/// A zip with one page in it, built in memory.
fn zip_bytes() -> Vec<u8> {
    let mut zip = zip::ZipWriter::new(Cursor::new(Vec::new()));
    let options = zip::write::SimpleFileOptions::default()
        .compression_method(zip::CompressionMethod::Stored);
    zip.start_file("001.jpg", options).unwrap();
    zip.write_all(b"no es un jpeg de verdad, pero ocupa sitio").unwrap();
    zip.finish().unwrap().into_inner()
}

fn head(bytes: &[u8]) -> &[u8] {
    &bytes[..bytes.len().min(8)]
}

#[test]
fn a_cbr_that_is_really_a_zip_still_opens() {
    let bytes = zip_bytes();
    let format = detect(head(&bytes), "Doctor Strange 001.cbr");
    assert_eq!(format, Format::Zip);

    let mut archive = zip::ZipArchive::new(Cursor::new(bytes)).unwrap();
    let names: Vec<String> = archive.file_names().map(|n| n.to_string()).collect();
    let entries: Vec<ArchiveEntry> = names
        .iter()
        .map(|n| ArchiveEntry { name: n.clone(), is_dir: false })
        .collect();
    assert_eq!(list_pages(entries), vec!["001.jpg".to_string()]);

    assert_eq!(read_page(format, &names, "001.jpg"), Ok(PageLookup::ByName));
    let mut entry = archive.by_name("001.jpg").unwrap();
    let mut buf = Vec::new();
    entry.read_to_end(&mut buf).unwrap();
    assert!(!buf.is_empty());
}

#[test]
fn the_extension_still_decides_when_there_is_no_signature() {
    assert_eq!(detect(b"", "vacio.cbz"), Format::Zip);
}

#[test]
fn other_formats_say_what_they_are() {
    let seven: &[u8] = b"7z\xbc\xaf\x27\x1c\x00\x04";
    assert_eq!(detect(seven, "comic.cbr"), Format::SevenZip);
    let err = reader_for(Format::SevenZip).unwrap_err();
    assert!(err.contains("7-Zip"), "{err}");
}

#[test]
fn signatures_win_over_extensions() {
    assert_eq!(detect(b"Rar!\x1a\x07\x01\x00", "x.cbz"), Format::Rar);
    assert_eq!(detect(b"PK\x05\x06", "x.cbr"), Format::Zip);
    assert_eq!(detect(b"hola", "x.cbr"), Format::Rar);
    assert_eq!(detect(b"hola", "x.pdf"), Format::Unknown);
    assert_eq!(detect(b"PK\x03", "x.txt"), Format::Unknown);
    assert_eq!(reader_for(Format::Rar), Ok(ArchiveKind::Rar));
    assert!(unsupported(Format::Unknown).contains("no es un zip ni un rar"));
}

#[test]
fn extensions_are_read_without_case() {
    assert!(is_comic("/lib/Saga 001.CBZ"));
    assert!(is_comic("a.cbr"));
    assert!(!is_comic("a.cb7"));
    // A name without a dot is its own extension.
    assert!(is_comic("cbz"));
    assert!(is_image("p/001.JPG"));
    assert!(is_image("x.webp"));
    assert!(!is_image("ComicInfo.xml"));
    assert_eq!(mime_for("a.PNG"), "image/png");
    assert_eq!(mime_for("a.jpeg"), "image/jpeg");
    assert_eq!(mime_for("a.gif"), "image/gif");
    assert_eq!(mime_for("a.webp"), "image/webp");
    assert_eq!(mime_for("a.bmp"), "image/bmp");
    assert_eq!(mime_for("a.avif"), "application/octet-stream");
}

#[test]
fn pages_come_in_natural_order_without_directories_or_other_files() {
    let entries = vec![
        ArchiveEntry { name: "p10.jpg".into(), is_dir: false },
        ArchiveEntry { name: "p2.jpg".into(), is_dir: false },
        ArchiveEntry { name: "ComicInfo.xml".into(), is_dir: false },
        ArchiveEntry { name: "dir.jpg".into(), is_dir: true },
        ArchiveEntry { name: "p1.png".into(), is_dir: false },
    ];
    assert_eq!(list_pages(entries), vec!["p1.png", "p2.jpg", "p10.jpg"]);
}

#[test]
fn the_metadata_file_is_found_at_any_depth() {
    assert!(is_metadata_entry("ComicInfo.xml"));
    assert!(is_metadata_entry("sub/COMICINFO.XML"));
    assert!(!is_metadata_entry("ComicInfo.xml.bak"));
    let names = vec!["001.jpg".to_string(), "x/comicinfo.xml".to_string(), "ComicInfo.xml".to_string()];
    assert_eq!(metadata_entry_index(&names), Some(1));
    assert_eq!(read_metadata(Format::Rar, &names), Some(1));
    assert_eq!(read_metadata(Format::SevenZip, &names), None);
    assert_eq!(read_metadata(Format::Zip, &vec!["001.jpg".to_string()]), None);
}

#[test]
fn a_missing_page_is_reported_by_name() {
    let names = vec!["a.jpg".to_string(), "b.jpg".to_string(), "b.jpg".to_string()];
    assert_eq!(read_page(Format::Rar, &names, "b.jpg"), Ok(PageLookup::Entry(1)));
    assert_eq!(read_page(Format::Zip, &names, "c.jpg"), Ok(PageLookup::ByName));
    assert_eq!(read_page(Format::Rar, &names, "c.jpg"), Err("page not found: c.jpg".to_string()));
    assert_eq!(page_not_found("x"), "page not found: x");
    assert!(read_page(Format::Unknown, &names, "a.jpg").unwrap_err().contains("corrupto"));
}

#[test]
fn rar_names_use_forward_slashes() {
    assert_eq!(normalize_entry_name("dir\\sub\\001.jpg"), "dir/sub/001.jpg");
    let wanted = vec!["dir/001.jpg".to_string()];
    assert!(wanted_page(&wanted, &"dir/001.jpg".to_string()));
    assert!(!wanted_page(&wanted, &"dir/002.jpg".to_string()));
}

#[test]
fn rar_failures_are_explained() {
    assert_eq!(rar_error(RarCode::BadPassword, "x"), "el archivo está protegido con contraseña");
    assert_eq!(rar_error(RarCode::BadData, "x"), "el archivo tiene datos corruptos");
    assert_eq!(rar_error(RarCode::ERead, "x"), "no se pudo leer el archivo del disco");
    assert_eq!(rar_error(RarCode::Other, "EEOF"), "el lector de rar falló (EEOF)");
}

#[test]
fn a_batch_of_pages_reads_each_entry_once() {
    let entries = vec!["a.jpg".to_string(), "b.jpg".to_string(), "c.jpg".to_string(), "b.jpg".to_string()];
    let asked = vec!["c.jpg".to_string(), "x.jpg".to_string(), "a.jpg".to_string()];
    assert_eq!(read_pages(Format::Zip, &entries, &asked), Ok(vec![2, 0]));
    assert_eq!(read_pages(Format::Rar, &entries, &asked), Ok(vec![0, 2]));
    let asked = vec!["b.jpg".to_string(), "a.jpg".to_string()];
    // The rar walk stops as soon as it has as many entries as names.
    assert_eq!(read_pages(Format::Rar, &entries, &asked), Ok(vec![0, 1]));
    assert_eq!(read_pages(Format::Rar, &entries, &Vec::new()), Ok(Vec::new()));
    assert!(read_pages(Format::SevenZip, &entries, &asked).unwrap_err().contains("7-Zip"));
}

#[test]
fn pages_that_fail_to_read_are_left_out() {
    let outcomes = vec![
        ("a.jpg".to_string(), Ok(vec![1u8])),
        ("b.jpg".to_string(), Err("roto".to_string())),
        ("c.jpg".to_string(), Ok(vec![3u8])),
    ];
    assert_eq!(pages_read(outcomes), vec![("a.jpg".to_string(), vec![1u8]), ("c.jpg".to_string(), vec![3u8])]);
    assert!(pages_read(Vec::new()).is_empty());
}

#[test]
fn a_zip_reports_a_missing_page_itself() {
    let bytes = zip_bytes();
    let mut archive = zip::ZipArchive::new(Cursor::new(bytes)).unwrap();
    assert_eq!(read_page(Format::Zip, &Vec::new(), "x.jpg"), Ok(PageLookup::ByName));
    assert!(archive.by_name("x.jpg").is_err());
}

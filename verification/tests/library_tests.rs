use std::cmp::Ordering;

use readingcomics::comicinfo::ComicInfoXml;
use readingcomics::commands::{
    build_listing, choose_cover, comic_info_fresh, confine, needs_comic_cover, comic_info_opened, cover_jpeg, encodable_len, make_thumb, comic_paths, cover_page, display_name, file_stem_of,
    folder_cover_candidates, folder_info, folder_stats, info_from_cache, page_data_uri,
    resolve_within, to_data_uri, worth_listing, CachedMeta, ChildEntry, DirEntry, EntryKind,
    WalkEntry,
};
use readingcomics::config::{AppConfig, Progress, ReadState};
use readingcomics::metron::SeriesHint;
use readingcomics::natural::{natural_cmp, natural_sort};
use readingcomics::series::{missing_issues, most_voted_index, series_info, sorted_unique, ComicRecord};

fn entry(path: &str, kind: EntryKind, worth: bool) -> DirEntry {
    let name = path.rsplit('/').next().map(|s| s.to_string());
    DirEntry { path: path.to_string(), file_name: name, kind, worth_listing: worth }
}

/// A folder with a good comic, one without pages, one that is not even a
/// zip, and a text file.
fn serie_a() -> Vec<DirEntry> {
    vec![
        entry("/lib/Serie A/sin_paginas.cbz", EntryKind::File, false),
        entry("/lib/Serie A/corrupto.cbz", EntryKind::File, false),
        entry("/lib/Serie A/notas.txt", EntryKind::File, false),
        entry("/lib/Serie A/bueno.cbz", EntryKind::File, false),
    ]
}

fn tagged(number: &str, count: Option<i32>) -> ComicRecord {
    let mut meta = ComicInfoXml::empty();
    meta.series = Some("Saga".into());
    meta.number = Some(number.into());
    meta.count = count;
    meta.publisher = Some("Image Comics".into());
    meta.year = Some(2012);
    meta.volume = Some(1);
    ComicRecord { meta: Some(meta), stem: format!("Saga {number}") }
}

fn untagged(stem: &str) -> ComicRecord {
    ComicRecord { meta: None, stem: stem.into() }
}

fn no_hint() -> SeriesHint {
    SeriesHint { name: None, volume: None, year: None }
}

#[test]
fn page2_comes_before_page10() {
    assert_eq!(natural_cmp("page2.jpg", "page10.jpg"), Ordering::Less);
    assert_eq!(natural_cmp("page10.jpg", "page2.jpg"), Ordering::Greater);
    assert_eq!(natural_cmp("a", "a"), Ordering::Equal);
    assert_eq!(natural_cmp("a", "ab"), Ordering::Less);
    assert_eq!(natural_cmp("007", "7"), Ordering::Equal);
    assert_eq!(natural_cmp("B", "a"), Ordering::Less);
}

#[test]
fn natural_sort_is_stable() {
    let v = vec!["x10".to_string(), "x07".to_string(), "x2".to_string(), "x7".to_string()];
    assert_eq!(natural_sort(v), vec!["x2", "x07", "x7", "x10"]);
}

#[test]
fn broken_comics_are_still_listed() {
    let listing = build_listing(&"/lib".to_string(), "/lib/Serie A".to_string(), true, Some("/lib".into()), serie_a())
        .expect("list_dir debería funcionar");
    let mut names: Vec<&str> = listing.comics.iter().map(|c| c.name.as_str()).collect();
    names.sort_unstable();
    assert_eq!(names, vec!["bueno", "corrupto", "sin_paginas"]);
    assert_eq!(listing.parent.as_deref(), Some("/lib"));
}

#[test]
fn empty_folders_are_hidden() {
    let serie = vec![ChildEntry { path: "/lib/Serie A/bueno.cbz".into(), kind: EntryKind::File }];
    let vacia: Vec<ChildEntry> = Vec::new();
    let entries = vec![
        entry("/lib/vacia", EntryKind::Dir, worth_listing(&vacia)),
        entry("/lib/Serie A", EntryKind::Dir, worth_listing(&serie)),
    ];
    let listing = build_listing(&"/lib".to_string(), "/lib".to_string(), true, None, entries).unwrap();
    let names: Vec<&str> = listing.folders.iter().map(|f| f.name.as_str()).collect();
    assert!(names.contains(&"Serie A"));
    assert!(!names.contains(&"vacia"), "carpeta vacía no debería listarse");
    assert_eq!(listing.parent, None);
}

#[test]
fn cannot_escape_root() {
    let outside = confine(Some("/lib/Serie A".into()), Some(Some("/lib".into())));
    assert!(outside.is_err(), "debería rechazar rutas fuera de la biblioteca");
}

#[test]
fn only_whole_components_count_as_inside() {
    assert_eq!(
        confine(Some("/lib".into()), Some(Some("/lib/Serie A".into()))),
        Ok(("/lib".to_string(), "/lib/Serie A".to_string()))
    );
    assert_eq!(
        confine(Some("/lib".into()), Some(Some("/lib2/x".into()))),
        Err("ruta fuera de la biblioteca".to_string())
    );
    assert_eq!(confine(Some("/lib".into()), None), Ok(("/lib".to_string(), "/lib".to_string())));
    assert_eq!(
        resolve_within(Some("/lib".into()), Some(Some("/x".into())), false),
        Err("ruta fuera de la biblioteca".to_string())
    );
}

#[test]
fn paths_are_checked_before_anything_is_read() {
    assert_eq!(
        resolve_within(None, None, true),
        Err("la carpeta de la biblioteca no existe".to_string())
    );
    assert_eq!(
        resolve_within(Some("/lib".into()), Some(None), true),
        Err("la carpeta no existe".to_string())
    );
    assert_eq!(
        resolve_within(Some("/lib".into()), None, true),
        Ok(("/lib".to_string(), "/lib".to_string()))
    );
    assert_eq!(
        resolve_within(Some("/lib".into()), Some(Some("/lib/a".into())), true),
        Ok(("/lib".to_string(), "/lib/a".to_string()))
    );
    let not_dir = build_listing(&"/lib".to_string(), "/lib/a.cbz".to_string(), false, None, Vec::new());
    assert_eq!(not_dir.err(), Some("la ruta no es una carpeta".to_string()));
}

#[test]
fn folders_and_comics_come_in_natural_order() {
    let entries = vec![
        entry("/lib/Saga 10.cbz", EntryKind::File, false),
        entry("/lib/Saga 2.cbr", EntryKind::File, false),
        entry("/lib/B", EntryKind::Dir, true),
        entry("/lib/A10", EntryKind::Dir, true),
        entry("/lib/A9", EntryKind::Dir, true),
        entry("/lib/link", EntryKind::Other, true),
    ];
    let listing = build_listing(&"/lib".to_string(), "/lib".to_string(), true, None, entries).unwrap();
    let folders: Vec<&str> = listing.folders.iter().map(|f| f.name.as_str()).collect();
    let comics: Vec<&str> = listing.comics.iter().map(|c| c.name.as_str()).collect();
    assert_eq!(folders, vec!["A9", "A10", "B"]);
    assert_eq!(comics, vec!["Saga 2", "Saga 10"]);
    assert_eq!(listing.comics[0].path, "/lib/Saga 2.cbr");
}

#[test]
fn names_are_shown_like_the_file_system_gives_them() {
    assert_eq!(file_stem_of("Saga 001.cbz"), "Saga 001");
    assert_eq!(file_stem_of("a.tar.gz"), "a.tar");
    assert_eq!(file_stem_of(".hidden"), ".hidden");
    assert_eq!(file_stem_of("sin_punto"), "sin_punto");
    assert_eq!(file_stem_of(".."), "..");
    assert_eq!(display_name("/lib/x.cbz", Some("x.cbz"), true), "x");
    assert_eq!(display_name("/lib/x.cbz", Some("x.cbz"), false), "x.cbz");
    assert_eq!(display_name("/", None, true), "/");
}

#[test]
fn pages_become_data_uris() {
    assert_eq!(to_data_uri(b"Man"), "data:image/jpeg;base64,TWFu");
    assert_eq!(to_data_uri(b""), "data:image/jpeg;base64,");
    assert_eq!(page_data_uri("p.png", b"Ma"), "data:image/png;base64,TWE=");
    assert_eq!(page_data_uri("p.bin", b"M"), "data:application/octet-stream;base64,TQ==");
}

#[test]
fn a_comic_without_pages_says_so() {
    let (cached, info) = comic_info_fresh(Ok(Vec::new()), None, None);
    assert_eq!(cached.page_count, 0);
    assert!(!cached.has_cover);
    assert_eq!(info.error.as_deref(), Some("el archivo no contiene páginas legibles"));

    let (cached, info) = comic_info_fresh(Err("roto".into()), None, None);
    assert_eq!(cached.error.as_deref(), Some("roto"));
    assert_eq!(info.error.as_deref(), Some("roto"));
    assert_eq!(info.page_count, 0);

    let pages = vec!["1.jpg".to_string(), "2.jpg".to_string()];
    let (cached, info) = comic_info_fresh(Ok(pages.clone()), None, None);
    assert_eq!(cached.page_count, 2);
    assert_eq!(info.error.as_deref(), Some("no se pudo decodificar la portada"));
    assert!(info.cover.is_none());

    let (cached, info) = comic_info_fresh(Ok(pages), Some(b"Man".to_vec()), Some(ComicInfoXml::empty()));
    assert!(cached.has_cover);
    assert_eq!(info.error, None);
    assert_eq!(info.cover.as_deref(), Some("data:image/jpeg;base64,TWFu"));
    assert!(info.meta.is_some());
}

#[test]
fn the_cache_answers_without_opening_the_comic() {
    let meta = CachedMeta { page_count: 7, has_cover: false, error: None, meta: None };
    let info = info_from_cache(meta, Some("data:x".into()));
    assert_eq!(info.page_count, 7);
    assert_eq!(info.cover, None);
    let meta = CachedMeta { page_count: 7, has_cover: true, error: None, meta: None };
    assert_eq!(info_from_cache(meta, Some("data:x".into())).cover.as_deref(), Some("data:x"));
    assert_eq!(cover_page(&Ok(vec!["a".into(), "b".into()])), Some("a".to_string()));
    assert_eq!(cover_page(&Err("x".into())), None);
}

#[test]
fn folder_counts_walk_the_subtree() {
    let walked = vec![
        WalkEntry { path: "/lib/A".into(), is_file: false },
        WalkEntry { path: "/lib/A/1.cbz".into(), is_file: true },
        WalkEntry { path: "/lib/A/cover.jpg".into(), is_file: true },
        WalkEntry { path: "/lib/A/B/2.cbr".into(), is_file: true },
    ];
    assert_eq!(folder_stats(&walked), (Some("/lib/A/1.cbz".to_string()), 2));
    assert_eq!(comic_paths(walked), vec!["/lib/A/1.cbz", "/lib/A/B/2.cbr"]);
    assert_eq!(folder_stats(&Vec::new()), (None, 0));
    let info = folder_info(Some(b"Man".to_vec()), 2);
    assert_eq!(info.cover.as_deref(), Some("data:image/jpeg;base64,TWFu"));
    assert_eq!(folder_info(None, 0).cover, None);
    let c = folder_cover_candidates();
    assert_eq!(c[0], "cover.jpg");
    assert_eq!(c[7], "folder.webp");
}

#[test]
fn detects_gaps_in_a_real_series() {
    let mut records: Vec<ComicRecord> = [3u32, 1, 9, 5, 2, 8]
        .iter()
        .map(|n| tagged(&n.to_string(), Some(12)))
        .collect();
    records.push(untagged("Saga extra"));
    let info = series_info(&records, no_hint());
    assert_eq!(info.owned, vec![1, 2, 3, 5, 8, 9], "numeros leidos del XML");
    assert_eq!(info.total, Some(12), "total declarado por la serie");
    assert_eq!(info.untagged, 1, "el cbz sin metadatos");
    assert_eq!(info.tagged, 6);
    assert_eq!(info.missing, vec![4, 6, 7, 10, 11, 12]);
    assert_eq!(info.series.as_deref(), Some("Saga"));
    assert_eq!(info.publisher.as_deref(), Some("Image Comics"));
    assert_eq!(info.volume, Some(1));
    assert_eq!(info.year, Some(2012));
    assert!(!info.guessed);
}

#[test]
fn the_highest_declared_total_counts() {
    let records = vec![tagged("1", Some(5)), tagged("2", Some(3)), tagged("2", Some(0))];
    let info = series_info(&records, no_hint());
    assert_eq!(info.total, Some(5));
    assert_eq!(info.owned, vec![1, 2]);
    assert_eq!(info.missing, vec![3, 4, 5]);
}

#[test]
fn untagged_folders_are_guessed_from_file_names() {
    let records = vec![untagged("Batman 003"), untagged("Batman 001"), untagged("portada"), untagged("Batman 001")];
    let hint = SeriesHint { name: Some("Carpeta".into()), volume: Some(2), year: Some(1990) };
    let info = series_info(&records, hint);
    assert!(info.guessed);
    assert_eq!(info.owned, vec![1, 3]);
    assert_eq!(info.missing, vec![2]);
    assert_eq!(info.series.as_deref(), Some("Batman"));
    assert_eq!(info.volume, Some(2));
    assert_eq!(info.year, Some(1990));
    assert_eq!(info.total, None);
    assert_eq!(info.untagged, 4);
}

#[test]
fn the_folder_name_is_the_last_resort() {
    let records = vec![untagged("portada")];
    let hint = SeriesHint { name: Some("Doctor Strange".into()), volume: None, year: None };
    let info = series_info(&records, hint);
    assert_eq!(info.series.as_deref(), Some("Doctor Strange"));
    assert!(info.owned.is_empty());
    assert!(info.missing.is_empty());
    assert!(!info.guessed);
}

#[test]
fn the_most_voted_series_wins_and_ties_go_to_the_first() {
    let votes = vec![vec!['b'], vec!['a'], vec!['a'], vec!['b'], vec!['c']];
    assert_eq!(most_voted_index(&votes), Some(0));
    let votes = vec![vec!['b'], vec!['a'], vec!['a']];
    assert_eq!(most_voted_index(&votes), Some(1));
    assert_eq!(most_voted_index(&Vec::new()), None);
}

#[test]
fn owned_numbers_are_sorted_once_and_gaps_fill_the_range() {
    assert_eq!(sorted_unique(&vec![5, 1, 5, 3, 1]), vec![1, 3, 5]);
    assert_eq!(sorted_unique(&Vec::new()), Vec::<u32>::new());
    assert_eq!(missing_issues(&vec![2, 5], None), vec![3, 4]);
    assert_eq!(missing_issues(&vec![2, 5], Some(3)), vec![3, 4]);
    assert_eq!(missing_issues(&vec![2, 5], Some(7)), vec![3, 4, 6, 7]);
    assert_eq!(missing_issues(&Vec::new(), Some(7)), Vec::<u32>::new());
    assert_eq!(missing_issues(&vec![u32::MAX - 1], Some(u32::MAX)), vec![u32::MAX]);
}

#[test]
fn marking_read_and_unread() {
    let mut p = Progress::new();
    let path = "/lib/a.cbz".to_string();
    assert_eq!(p.get(&path), None);
    assert!(!p.set_progress(path.clone(), 3, 10));
    assert_eq!(p.get(&path), Some(ReadState { read: false, last_page: 3 }));
    p.set_read(path.clone(), true);
    assert_eq!(p.get(&path), Some(ReadState { read: true, last_page: 3 }));
    p.set_read(path.clone(), false);
    assert_eq!(p.get(&path), Some(ReadState { read: false, last_page: 0 }));
    assert_eq!(p.entries().len(), 1);
}

#[test]
fn reaching_the_last_page_marks_the_comic_read() {
    let mut p = Progress::new();
    let path = "/lib/a.cbz".to_string();
    assert!(p.set_progress(path.clone(), 9, 10));
    assert!(p.set_progress(path.clone(), 2, 10), "stays read when going back");
    assert_eq!(p.get(&path), Some(ReadState { read: true, last_page: 2 }));
    assert!(!p.set_progress("/lib/b.cbz".into(), 0, 0));
}

#[test]
fn a_whole_collection_is_marked_at_once() {
    let mut p = Progress::new();
    p.set_progress("/lib/a.cbz".into(), 4, 10);
    p.set_many_read(vec!["/lib/a.cbz".into(), "/lib/b.cbz".into()], true);
    assert_eq!(p.get(&"/lib/a.cbz".to_string()), Some(ReadState { read: true, last_page: 4 }));
    assert_eq!(p.get(&"/lib/b.cbz".to_string()), Some(ReadState { read: true, last_page: 0 }));
    let again = Progress::from_entries(p.entries());
    assert_eq!(again.get(&"/lib/a.cbz".to_string()), Some(ReadState { read: true, last_page: 4 }));
    assert_eq!(ReadState::default(), ReadState { read: false, last_page: 0 });
    let c = AppConfig::empty();
    assert!(c.library_root.is_none() && c.libraries.is_empty());
}

/// A small PNG, made with the image crate.
fn png() -> Vec<u8> {
    let img = image::DynamicImage::ImageRgb8(image::RgbImage::from_pixel(600, 300, image::Rgb([200, 10, 10])));
    let mut buf = std::io::Cursor::new(Vec::new());
    img.write_to(&mut buf, image::ImageFormat::Png).unwrap();
    buf.into_inner()
}

#[test]
fn pages_become_jpeg_thumbnails() {
    let thumb = make_thumb(&png()).expect("un PNG válido");
    assert_eq!(&thumb[..2], &[0xFF, 0xD8]);
    let small = image::load_from_memory(&thumb).unwrap();
    assert_eq!((small.width(), small.height()), (340, 170));
    assert!(make_thumb(b"no soy una imagen").is_none());
}

#[test]
fn a_cover_set_by_hand_is_reencoded() {
    let jpeg = cover_jpeg(&png()).expect("un PNG válido");
    assert_eq!(&jpeg[..2], &[0xFF, 0xD8]);
    let full = image::load_from_memory(&jpeg).unwrap();
    assert_eq!((full.width(), full.height()), (600, 300));
    assert_eq!(
        cover_jpeg(b"no soy una imagen"),
        Err("el archivo no es una imagen que se pueda leer".to_string())
    );
}

#[test]
fn opening_a_comic_makes_its_cover_from_the_first_page() {
    let pages = vec!["1.png".to_string()];
    let (cached, shown, thumb) = comic_info_opened(Ok(pages.clone()), Some(png()), None).unwrap();
    assert!(cached.has_cover);
    assert_eq!(shown.error, None);
    let thumb = thumb.expect("miniatura");
    assert_eq!(thumb, make_thumb(&png()).unwrap());
    assert!(shown.cover.unwrap().starts_with("data:image/jpeg;base64,/9j/"));
    let (cached, shown, thumb) = comic_info_opened(Ok(pages), Some(b"roto".to_vec()), None).unwrap();
    assert!(!cached.has_cover);
    assert!(thumb.is_none());
    assert_eq!(shown.error.as_deref(), Some("no se pudo decodificar la portada"));
    assert!(encodable_len(3));
    assert!(!encodable_len(usize::MAX));
}

#[test]
fn a_cached_comic_shows_what_its_first_opening_showed() {
    let pages = vec!["1.png".to_string(), "2.png".to_string()];
    let mut meta = ComicInfoXml::empty();
    meta.series = Some("Saga".into());
    let (cached, shown, thumb) = comic_info_opened(Ok(pages), Some(png()), Some(meta)).unwrap();
    let stored = thumb.map(|t| to_data_uri(&t));
    let again = info_from_cache(cached, stored);
    assert_eq!(again.cover, shown.cover);
    assert_eq!(again.page_count, shown.page_count);
    assert_eq!(again.error, shown.error);
    assert_eq!(again.meta.and_then(|m| m.series), Some("Saga".to_string()));
}

#[test]
fn marking_twice_is_marking_once() {
    let mut once = Progress::new();
    once.set_progress("/lib/a.cbz".into(), 5, 10);
    let mut twice = Progress::from_entries(once.entries());
    once.set_read("/lib/a.cbz".into(), false);
    twice.set_read("/lib/a.cbz".into(), false);
    twice.set_read("/lib/a.cbz".into(), false);
    assert_eq!(once.get(&"/lib/a.cbz".to_string()), twice.get(&"/lib/a.cbz".to_string()));
}

#[test]
fn a_folder_cover_is_its_own_image_first() {
    let own = vec![None, Some(vec![7u8]), Some(vec![8u8])];
    assert!(!needs_comic_cover(&own));
    assert_eq!(choose_cover(own, Some(vec![9u8])), Some(vec![7u8]));
    let none: Vec<Option<Vec<u8>>> = vec![None, None];
    assert!(needs_comic_cover(&none));
    assert_eq!(choose_cover(none, Some(vec![9u8])), Some(vec![9u8]));
    assert_eq!(choose_cover(Vec::new(), None), None);
}

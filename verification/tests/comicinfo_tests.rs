use readingcomics::comicinfo::{guess_from_filename, issue_number, looks_like_year, parse, read};

const SAMPLE: &str = r#"<?xml version="1.0"?>
<ComicInfo xmlns:xsi="http://www.w3.org/2001/XMLSchema-instance">
  <Series>Saga</Series>
  <Number>12</Number>
  <Count>54</Count>
  <Volume>1</Volume>
  <Publisher>Image Comics</Publisher>
  <Year>2013</Year>
  <LanguageISO>en</LanguageISO>
</ComicInfo>"#;

fn guess(s: &str) -> (Option<String>, Option<u32>) {
    let g = guess_from_filename(s);
    (g.series, g.number)
}

#[test]
fn parses_the_usual_fields() {
    let info = parse(SAMPLE.as_bytes()).expect("debería parsear");
    assert_eq!(info.series.as_deref(), Some("Saga"));
    assert_eq!(info.number.as_deref(), Some("12"));
    assert_eq!(info.count, Some(54));
    assert_eq!(info.publisher.as_deref(), Some("Image Comics"));
    assert_eq!(info.year, Some(2013));
}

#[test]
fn broken_xml_does_not_panic() {
    assert!(parse(b"<ComicInfo><Series>Sin cerrar").is_some());
    assert!(parse(b"esto no es xml").is_none());
}

#[test]
fn issue_numbers_of_all_shapes() {
    assert_eq!(issue_number("7"), Some(7));
    assert_eq!(issue_number("007"), Some(7));
    assert_eq!(issue_number("7a"), Some(7));
    assert_eq!(issue_number("7.5"), Some(7));
    assert_eq!(issue_number("anual"), None);
}

#[test]
fn parses_common_naming_patterns() {
    assert_eq!(guess("Saga 003"), (Some("Saga".into()), Some(3)));
    assert_eq!(guess("Saga #12"), (Some("Saga".into()), Some(12)));
    assert_eq!(guess("Saga 003 (2013)"), (Some("Saga".into()), Some(3)));
    assert_eq!(
        guess("Batman - 042 [Digital]"),
        (Some("Batman".into()), Some(42))
    );
    assert_eq!(
        guess("Asterix 12 - La Cizana"),
        (Some("Asterix".into()), Some(12))
    );
}

#[test]
fn ignores_volume_markers() {
    assert_eq!(guess("Saga v01 003"), (Some("Saga v01".into()), Some(3)));
}

#[test]
fn a_lone_year_is_not_an_issue_number() {
    assert_eq!(guess("Watchmen (1986)"), (None, None));
}

#[test]
fn gives_up_cleanly_when_there_is_nothing_to_read() {
    assert_eq!(guess("portada"), (None, None));
    assert_eq!(guess("007"), (None, Some(7)));
}

#[test]
fn issue_numbers_trim_blanks_and_refuse_overflow() {
    assert_eq!(issue_number("  12  "), Some(12));
    assert_eq!(issue_number(""), None);
    assert_eq!(issue_number("4294967295"), Some(4294967295));
    assert_eq!(issue_number("4294967296"), None);
    assert_eq!(issue_number("-3"), None);
}

#[test]
fn years_need_four_digits_in_range() {
    assert!(looks_like_year(1986, 4));
    assert!(!looks_like_year(1986, 5));
    assert!(!looks_like_year(1899, 4));
    assert!(!looks_like_year(2101, 4));
    assert!(looks_like_year(2100, 4));
}

#[test]
fn reading_without_metadata_gives_nothing() {
    assert!(read(None).is_none());
    let info = read(Some(SAMPLE.as_bytes().to_vec())).expect("metadatos");
    assert_eq!(info.volume, Some(1));
    assert_eq!(info.language_iso.as_deref(), Some("en"));
    assert_eq!(info.title, None);
}

#[test]
fn later_fields_overwrite_and_bad_numbers_are_dropped() {
    let xml = b"<ComicInfo><Series>A</Series><Series>B</Series><Count>muchos</Count><Manga>Yes</Manga></ComicInfo>";
    let info = parse(xml).expect("hay texto");
    assert_eq!(info.series.as_deref(), Some("B"));
    assert_eq!(info.count, None);
    assert_eq!(info.manga.as_deref(), Some("Yes"));
}

#[test]
fn only_first_level_elements_are_read() {
    let xml = b"<ComicInfo><Pages><Series>Otra</Series></Pages><Number>3</Number></ComicInfo>";
    let info = parse(xml).expect("hay un campo de primer nivel");
    assert_eq!(info.series, None);
    assert_eq!(info.number.as_deref(), Some("3"));
    assert!(parse(b"<ComicInfo><Pages><Series>Otra</Series></Pages></ComicInfo>").is_none());
    assert!(parse(b"<Series>Suelta</Series>").is_none());
}

#[test]
fn a_bracketed_group_does_not_change_the_guess() {
    assert_eq!(guess("Saga 003 (2013)"), guess("Saga 003 "));
    assert_eq!(guess("Batman [Digital] 042"), guess("Batman  042"));
}

//! What the library decides about comic archives: which entries are pages and
//! in what order, which file is the metadata, what format a file really is,
//! and how a failure is explained to the reader.
//!
//! Opening the archives (zip and rar readers on files on disk) is done by the
//! caller; these functions take what the readers listed.

use vstd::prelude::*;
use crate::natural::{arranged, natural_sort, sorted_by_name, stable_by_name, Named};
use crate::text::{
    chars_of, contains, exec_contains, extend_chars, lowercase, string_of, to_lower,
};

verus! {

/* ---------- Names ---------- */

/// What `s.rsplit(c).next()` returns: the part after the last `c`, or all of `s`.
pub open spec fn after_last(s: Seq<char>, c: char) -> Seq<char>
    decreases s.len(),
{
    if s.len() == 0 {
        s
    } else if s.last() == c {
        Seq::empty()
    } else {
        after_last(s.drop_last(), c).push(s.last())
    }
}

/// `s.rsplit(c).next()` on characters.
fn after_last_exec(v: &Vec<char>, c: char) -> (r: Vec<char>)
    ensures
        r@ == after_last(v@, c),
{
    let mut i: usize = v.len();
    while i > 0 && v[i - 1] != c
        invariant
            i <= v.len(),
            forall|k: int| i <= k < v.len() ==> v@[k] != c,
        decreases i,
    {
        i = i - 1;
    }
    let r: Vec<char> = crate::text::slice_chars(v, i, v.len());
    proof {
        lemma_after_last(v@, c, i as int);
    }
    r
}

pub(crate) proof fn lemma_after_last(s: Seq<char>, c: char, i: int)
    requires
        0 <= i <= s.len(),
        forall|k: int| i <= k < s.len() ==> s[k] != c,
        i == 0 || s[i - 1] == c,
    ensures
        after_last(s, c) == s.subrange(i, s.len() as int),
    decreases s.len(),
{
    if s.len() > i {
        lemma_after_last(s.drop_last(), c, i);
        assert(s.subrange(i, s.len() as int) =~= s.drop_last().subrange(i, s.len() - 1).push(s.last()));
    } else if s.len() > 0 {
        assert(s.subrange(i, s.len() as int) =~= Seq::<char>::empty());
    }
}

/// The lower-cased extension of a name: what follows its last dot, or the whole
/// name when it has none.
pub open spec fn extension(name: Seq<char>) -> Seq<char> {
    after_last(lowercase(name), '.')
}

fn ext_of(name: &str) -> (r: Vec<char>)
    ensures
        r@ == extension(name@),
{
    let lower: String = to_lower(name);
    let v: Vec<char> = chars_of(lower.as_str());
    after_last_exec(&v, '.')
}

fn same(a: &Vec<char>, lit: &str) -> (r: bool)
    ensures
        r == (a@ == lit@),
{
    let b: Vec<char> = chars_of(lit);
    crate::text::chars_eq(a, &b)
}

/// Extensions of image pages.
pub open spec fn is_image_ext(e: Seq<char>) -> bool {
    e == "jpg"@ || e == "jpeg"@ || e == "png"@ || e == "gif"@ || e == "webp"@ || e == "bmp"@
}

/// An image entry that is a page: not under `__MACOSX`, not hidden (a base name
/// starting with a dot), with an image extension. Case is ignored.
pub open spec fn is_image_name(name: Seq<char>) -> bool {
    let lower = lowercase(name);
    let base = after_last(lower, '/');
    &&& !contains(lower, "__macosx"@)
    &&& !(base.len() > 0 && base[0] == '.')
    &&& is_image_ext(extension(name))
}

/// Whether an archive entry is an image page.
pub fn is_image(name: &str) -> (r: bool)
    ensures
        r == is_image_name(name@),
        r == shown_as_page(name@),
{
    proof {
        lemma_page_names(name@);
    }
    let lower_s: String = to_lower(name);
    let lower: Vec<char> = chars_of(lower_s.as_str());
    let base: Vec<char> = after_last_exec(&lower, '/');
    let mac: Vec<char> = chars_of("__macosx");
    if exec_contains(&lower, &mac) || (base.len() > 0 && base[0] == '.') {
        return false;
    }
    let e: Vec<char> = after_last_exec(&lower, '.');
    same(&e, "jpg") || same(&e, "jpeg") || same(&e, "png") || same(&e, "gif") || same(&e, "webp")
        || same(&e, "bmp")
}

/// The MIME type served for a page of the given name.
pub open spec fn mime_of(name: Seq<char>) -> Seq<char> {
    let e = extension(name);
    if e == "jpg"@ || e == "jpeg"@ {
        "image/jpeg"@
    } else if e == "png"@ {
        "image/png"@
    } else if e == "gif"@ {
        "image/gif"@
    } else if e == "webp"@ {
        "image/webp"@
    } else if e == "bmp"@ {
        "image/bmp"@
    } else {
        "application/octet-stream"@
    }
}

/// The MIME type of a page, from its extension.
pub fn mime_for(name: &str) -> (r: &'static str)
    ensures
        r@ == mime_of(name@),
{
    let e: Vec<char> = ext_of(name);
    if same(&e, "jpg") || same(&e, "jpeg") {
        "image/jpeg"
    } else if same(&e, "png") {
        "image/png"
    } else if same(&e, "gif") {
        "image/gif"
    } else if same(&e, "webp") {
        "image/webp"
    } else if same(&e, "bmp") {
        "image/bmp"
    } else {
        "application/octet-stream"
    }
}

/// A comic file: extension `cbz` or `cbr`, in any case.
pub open spec fn is_comic_name(path: Seq<char>) -> bool {
    extension(path) == "cbz"@ || extension(path) == "cbr"@
}

/// Whether a path names a comic archive, by its extension.
pub fn is_comic(path: &str) -> (r: bool)
    ensures
        r == is_comic_name(path@),
{
    let e: Vec<char> = ext_of(path);
    same(&e, "cbz") || same(&e, "cbr")
}

/* ---------- Formats ---------- */

/// The real format of a file, which need not be the one its extension says.
#[derive(Debug, Clone, Copy, PartialEq, Eq, Structural)]
pub enum Format {
    Zip,
    Rar,
    SevenZip,
    Unknown,
}

pub open spec fn has_prefix(s: Seq<u8>, p: Seq<u8>) -> bool {
    p.len() <= s.len() && s.take(p.len() as int) == p
}

pub open spec fn zip_local_sig() -> Seq<u8> {
    seq![0x50u8, 0x4bu8, 0x03u8, 0x04u8]
}

pub open spec fn zip_empty_sig() -> Seq<u8> {
    seq![0x50u8, 0x4bu8, 0x05u8, 0x06u8]
}

/// `Rar!\x1a\x07`: the common start of the RAR 4 and RAR 5 signatures.
pub open spec fn rar_sig() -> Seq<u8> {
    seq![0x52u8, 0x61u8, 0x72u8, 0x21u8, 0x1au8, 0x07u8]
}

pub open spec fn seven_zip_sig() -> Seq<u8> {
    seq![0x37u8, 0x7au8, 0xbcu8, 0xafu8, 0x27u8, 0x1cu8]
}

/// The format told by the first bytes of a file, and by its name when they
/// carry no known signature.
pub open spec fn format_of(head: Seq<u8>, name: Seq<char>) -> Format {
    if has_prefix(head, zip_local_sig()) || has_prefix(head, zip_empty_sig()) {
        Format::Zip
    } else if has_prefix(head, rar_sig()) {
        Format::Rar
    } else if has_prefix(head, seven_zip_sig()) {
        Format::SevenZip
    } else if extension(name) == "cbz"@ {
        Format::Zip
    } else if extension(name) == "cbr"@ {
        Format::Rar
    } else {
        Format::Unknown
    }
}

fn has_prefix_exec(s: &[u8], p: &[u8]) -> (r: bool)
    ensures
        r == has_prefix(s@, p@),
{
    if p.len() > s.len() {
        return false;
    }
    let mut i: usize = 0;
    while i < p.len()
        invariant
            i <= p.len() <= s.len(),
            forall|k: int| 0 <= k < i ==> s@[k] == p@[k],
        decreases p.len() - i,
    {
        if s[i] != p[i] {
            assert(s@.take(p@.len() as int)[i as int] == s@[i as int]);
            return false;
        }
        i = i + 1;
    }
    assert(s@.take(p@.len() as int) =~= p@);
    true
}

/// Finds out the format from the first bytes of the file (`head`, up to eight
/// of them), not from the extension; the name `name` decides only when the bytes
/// carry no known signature.
///
/// A `.cbr` that is really a zip is common: many people repackage the content
/// and keep the name.
pub fn detect(head: &[u8], name: &str) -> (r: Format)
    ensures
        r == format_of(head@, name@),
{
    let zl: [u8; 4] = [0x50, 0x4b, 0x03, 0x04];
    let ze: [u8; 4] = [0x50, 0x4b, 0x05, 0x06];
    let rar: [u8; 6] = [0x52, 0x61, 0x72, 0x21, 0x1a, 0x07];
    let sz: [u8; 6] = [0x37, 0x7a, 0xbc, 0xaf, 0x27, 0x1c];
    assert(zl@ =~= zip_local_sig());
    assert(ze@ =~= zip_empty_sig());
    assert(rar@ =~= rar_sig());
    assert(sz@ =~= seven_zip_sig());
    if has_prefix_exec(head, zl.as_slice()) || has_prefix_exec(head, ze.as_slice()) {
        return Format::Zip;
    }
    if has_prefix_exec(head, rar.as_slice()) {
        return Format::Rar;
    }
    if has_prefix_exec(head, sz.as_slice()) {
        return Format::SevenZip;
    }
    let e: Vec<char> = ext_of(name);
    if same(&e, "cbz") {
        Format::Zip
    } else if same(&e, "cbr") {
        Format::Rar
    } else {
        Format::Unknown
    }
}

/// The explanation, shown on the comic's card, of why a format cannot be opened.
pub open spec fn unsupported_message(format: Format) -> Seq<char> {
    match format {
        Format::SevenZip => "el archivo es un 7-Zip, un formato que la aplicaci\u{f3}n todav\u{ed}a no lee"@,
        _ => "el archivo no es un zip ni un rar; puede estar incompleto o corrupto"@,
    }
}

/// Explains why a file cannot be opened, so the library says more than
/// "could not be read".
pub fn unsupported(format: Format) -> (r: String)
    ensures
        r@ == unsupported_message(format),
{
    match format {
        Format::SevenZip => "el archivo es un 7-Zip, un formato que la aplicaci\u{f3}n todav\u{ed}a no lee".to_owned(),
        _ => "el archivo no es un zip ni un rar; puede estar incompleto o corrupto".to_owned(),
    }
}

/// The reader that opens a file of a given format.
#[derive(Debug, Clone, Copy, PartialEq, Eq, Structural)]
pub enum ArchiveKind {
    Zip,
    Rar,
}

/// Which reader opens a file of this format, or why none can.
pub fn reader_for(format: Format) -> (r: Result<ArchiveKind, String>)
    ensures
        format == Format::Zip ==> r == Ok::<ArchiveKind, String>(ArchiveKind::Zip),
        format == Format::Rar ==> r == Ok::<ArchiveKind, String>(ArchiveKind::Rar),
        format != Format::Zip && format != Format::Rar ==> (r matches Err(e) && e@
            == unsupported_message(format)),
{
    match format {
        Format::Zip => Ok(ArchiveKind::Zip),
        Format::Rar => Ok(ArchiveKind::Rar),
        other => Err(unsupported(other)),
    }
}

/* ---------- Pages ---------- */

/// An entry of an archive as its reader lists it.
pub struct ArchiveEntry {
    /// Name inside the archive, with `/` as separator.
    pub name: String,
    pub is_dir: bool,
}

/// The entries that are pages: not directories, image names.
pub open spec fn page_candidates(entries: Seq<ArchiveEntry>) -> Seq<String>
    decreases entries.len(),
{
    if entries.len() == 0 {
        Seq::empty()
    } else {
        let e = entries.last();
        let rest = page_candidates(entries.drop_last());
        if !e.is_dir && is_image_name(e.name@) {
            rest.push(e.name)
        } else {
            rest
        }
    }
}

/// The page names of an archive: its image entries, in natural order (stable
/// for names that compare equal).
pub fn list_pages(entries: Vec<ArchiveEntry>) -> (r: Vec<String>)
    ensures
        exists|p: Seq<int>| arranged(page_candidates(entries@), r@, p) && stable_by_name(r@, p),
        sorted_by_name(r@),
        forall|k: int| 0 <= k < entries@.len() && !entries@[k].is_dir && shown_as_page(#[trigger] entries@[k].name@) ==> r@.contains(
            entries@[k].name,
        ),
{
    let ghost all = entries@;
    let mut entries = entries;
    let mut names: Vec<String> = Vec::new();
    // take the entries from the back, then restore their order
    let mut back: Vec<String> = Vec::new();
    while entries.len() > 0
        invariant
            entries@ == all.take(entries.len() as int),
            entries.len() <= all.len(),
            page_candidates(all) == page_candidates(entries@) + back@.reverse(),
        decreases entries.len(),
    {
        let e: ArchiveEntry = entries.pop().unwrap();
        let ghost k: int = entries.len() as int;
        assert(all.take(k + 1).drop_last() =~= all.take(k));
        assert(all.take(k + 1).last() == e);
        if !e.is_dir && is_image(e.name.as_str()) {
            let ghost b = back@;
            back.push(e.name);
            assert(back@.reverse() =~= seq![b.push(back@.last()).last()] + b.reverse()) by {
                assert(back@ =~= b.push(back@.last()));
            }
        }
    }
    while back.len() > 0
        invariant
            page_candidates(all) == names@ + back@.reverse(),
        decreases back.len(),
    {
        let s: String = back.pop().unwrap();
        names.push(s);
    }
    assert(names@ =~= page_candidates(all)) by {
        assert(back@.reverse() =~= Seq::<String>::empty());
    }
    let r: Vec<String> = natural_sort(names);
    proof {
        let p = choose|p: Seq<int>| arranged(page_candidates(all), r@, p) && stable_by_name(r@, p);
        assert forall|k: int| 0 <= k < all.len() && !all[k].is_dir && shown_as_page(#[trigger] all[k].name@) implies r@.contains(
            all[k].name,
        ) by {
            lemma_pages_are_listed(all, r@, p, k);
        }
    }
    r
}

/* ---------- Metadata ---------- */

/// A ComicInfo.xml at any depth, in any case.
pub open spec fn is_metadata_name(name: Seq<char>) -> bool {
    after_last(lowercase(name), '/') == "comicinfo.xml"@
}

/// Whether an archive entry is the ComicInfo.xml metadata file.
pub fn is_metadata_entry(name: &str) -> (r: bool)
    ensures
        r == is_metadata_name(name@),
{
    let lower_s: String = to_lower(name);
    let lower: Vec<char> = chars_of(lower_s.as_str());
    let base: Vec<char> = after_last_exec(&lower, '/');
    same(&base, "comicinfo.xml")
}

/// Index of the first entry name that is the metadata file.
pub fn metadata_entry_index(names: &Vec<String>) -> (r: Option<usize>)
    ensures
        r matches Some(i) ==> i < names.len() && is_metadata_name(names@[i as int]@) && forall|k: int|
            0 <= k < i ==> !is_metadata_name(#[trigger] names@[k]@),
        r is None ==> forall|k: int| 0 <= k < names.len() ==> !is_metadata_name(#[trigger] names@[k]@),
{
    let mut i: usize = 0;
    while i < names.len()
        invariant
            i <= names.len(),
            forall|k: int| 0 <= k < i ==> !is_metadata_name(#[trigger] names@[k]@),
        decreases names.len() - i,
    {
        if is_metadata_entry(names[i].as_str()) {
            return Some(i);
        }
        i = i + 1;
    }
    None
}

/// Entry names with `\` turned into `/`.
pub open spec fn slashes(name: Seq<char>) -> Seq<char> {
    name.map_values(|c: char| if c == '\\' { '/' } else { c })
}

/// An entry name as a rar reader gives it, with `\` separators made `/`.
pub fn normalize_entry_name(name: &str) -> (r: String)
    ensures
        r@ == slashes(name@),
{
    let v: Vec<char> = chars_of(name);
    let mut out: Vec<char> = Vec::new();
    let mut i: usize = 0;
    while i < v.len()
        invariant
            i <= v.len(),
            out@ == slashes(v@.take(i as int)),
        decreases v.len() - i,
    {
        out.push(if v[i] == '\\' { '/' } else { v[i] });
        i = i + 1;
        assert(out@ =~= slashes(v@.take(i as int)));
    }
    assert(v@.take(v.len() as int) =~= v@);
    string_of(&out)
}

/// Whether a rar entry is one of the pages asked for.
pub fn wanted_page(names: &Vec<String>, entry: &String) -> (r: bool)
    ensures
        r == exists|k: int| 0 <= k < names.len() && (#[trigger] names@[k])@ == entry@,
{
    let mut i: usize = 0;
    while i < names.len()
        invariant
            i <= names.len(),
            forall|k: int| 0 <= k < i ==> (#[trigger] names@[k])@ != entry@,
        decreases names.len() - i,
    {
        if names[i] == *entry {
            assert(names@[i as int]@ == entry@);
            return true;
        }
        i = i + 1;
    }
    false
}

/// The error given when a rar archive has no entry of the requested name.
pub fn page_not_found(name: &str) -> (r: String)
    ensures
        r@ == "page not found: "@ + name@,
{
    let mut out: Vec<char> = chars_of("page not found: ");
    let n: Vec<char> = chars_of(name);
    extend_chars(&mut out, &n);
    string_of(&out)
}

/// How a page is found in an archive.
#[derive(Debug, Clone, Copy, PartialEq, Eq, Structural)]
pub enum PageLookup {
    /// Ask the zip's own index for the name: a zip finds an entry by name, and
    /// a name it lacks is reported by the zip reader.
    ByName,
    /// Read the entry at this position of the archive.
    Entry(usize),
}

/// How to read a page: `entry_names` are the names of the archive's entries in
/// archive order (a rar's with `/` separators), `name` the page asked for. A
/// zip is asked for the name; a rar is walked to the first entry of that name,
/// and has none when no entry has it. Other formats have no reader.
pub fn read_page(format: Format, entry_names: &Vec<String>, name: &str) -> (r: Result<PageLookup, String>)
    ensures
        format != Format::Zip && format != Format::Rar ==> (r matches Err(e) && e@ == unsupported_message(format)),
        format == Format::Zip ==> r == Ok::<PageLookup, String>(PageLookup::ByName),
        format == Format::Rar ==> match r {
            Ok(PageLookup::Entry(k)) => k < entry_names.len() && entry_names@[k as int]@ == name@
                && forall|j: int| 0 <= j < k ==> (#[trigger] entry_names@[j])@ != name@,
            Ok(PageLookup::ByName) => false,
            Err(e) => e@ == "page not found: "@ + name@
                && forall|j: int| 0 <= j < entry_names.len() ==> (#[trigger] entry_names@[j])@ != name@,
        },
{
    match format {
        Format::SevenZip | Format::Unknown => Err(unsupported(format)),
        Format::Zip => Ok(PageLookup::ByName),
        Format::Rar => {
            let wanted: String = name.to_owned();
            let mut i: usize = 0;
            while i < entry_names.len()
                invariant
                    i <= entry_names.len(),
                    format == Format::Rar,
                    wanted@ == name@,
                    forall|j: int| 0 <= j < i ==> (#[trigger] entry_names@[j])@ != name@,
                decreases entry_names.len() - i,
            {
                if entry_names[i] == wanted {
                    return Ok(PageLookup::Entry(i));
                }
                i = i + 1;
            }
            Err(page_not_found(name))
        },
    }
}

/// Which entry holds the ComicInfo.xml of an archive: the first metadata entry
/// of a zip or a rar (names in archive order, a rar's with `/` separators).
/// Other formats are not opened.
pub fn read_metadata(format: Format, entry_names: &Vec<String>) -> (r: Option<usize>)
    ensures
        format != Format::Zip && format != Format::Rar ==> r is None,
        format == Format::Zip || format == Format::Rar ==> {
            &&& r matches Some(i) ==> i < entry_names.len() && is_metadata_name(entry_names@[i as int]@)
                && forall|k: int| 0 <= k < i ==> !is_metadata_name(#[trigger] entry_names@[k]@)
            &&& r is None ==> forall|k: int| 0 <= k < entry_names.len() ==> !is_metadata_name(#[trigger] entry_names@[k]@)
        },
{
    match format {
        Format::Zip | Format::Rar => metadata_entry_index(entry_names),
        _ => None,
    }
}

/// The first entry named `n`.
pub open spec fn first_named(es: Seq<Seq<char>>, n: Seq<char>) -> Option<int>
    decreases es.len(),
{
    if es.len() == 0 {
        None
    } else {
        match first_named(es.drop_last(), n) {
            Some(k) => Some(k),
            None => if es.last() == n {
                Some(es.len() - 1)
            } else {
                None
            },
        }
    }
}

/// The entries a zip gives for the pages asked for, in the order asked: the
/// entry of each name that it has.
pub open spec fn zip_picks(es: Seq<Seq<char>>, names: Seq<Seq<char>>) -> Seq<int>
    decreases names.len(),
{
    if names.len() == 0 {
        Seq::empty()
    } else {
        let p = zip_picks(es, names.drop_last());
        match first_named(es, names.last()) {
            Some(k) => p.push(k),
            None => p,
        }
    }
}

/// The entries a rar gives for the pages asked for, walking its first `n`
/// entries in order: each entry whose name was asked for, and the walk stops
/// after an entry once as many entries were taken as names were asked for.
pub open spec fn rar_picks(es: Seq<Seq<char>>, names: Seq<Seq<char>>, n: int) -> Seq<int>
    decreases n,
{
    if n <= 0 {
        Seq::empty()
    } else {
        let p = rar_picks(es, names, n - 1);
        if n > 1 && p.len() == names.len() {
            p
        } else if names.contains(es[n - 1]) {
            p.push(n - 1)
        } else {
            p
        }
    }
}

pub open spec fn name_views(v: Seq<String>) -> Seq<Seq<char>> {
    v.map_values(|s: String| s@)
}

pub open spec fn index_view(v: Seq<usize>) -> Seq<int> {
    v.map_values(|k: usize| k as int)
}

fn first_named_exec(entry_names: &Vec<String>, name: &String) -> (r: Option<usize>)
    ensures
        match r {
            Some(k) => first_named(name_views(entry_names@), name@) == Some(k as int),
            None => first_named(name_views(entry_names@), name@) is None,
        },
{
    let ghost es = name_views(entry_names@);
    let mut i: usize = 0;
    while i < entry_names.len()
        invariant
            i <= entry_names.len(),
            es == name_views(entry_names@),
            first_named(es.take(i as int), name@) is None,
        decreases entry_names.len() - i,
    {
        assert(es.take(i + 1).drop_last() =~= es.take(i as int));
        if entry_names[i] == *name {
            proof {
                lemma_first_named_prefix(es, name@, i + 1);
            }
            return Some(i);
        }
        i = i + 1;
    }
    assert(es.take(entry_names.len() as int) =~= es);
    None
}

proof fn lemma_first_named_prefix(es: Seq<Seq<char>>, n: Seq<char>, i: int)
    requires
        0 < i <= es.len(),
        first_named(es.take(i - 1), n) is None,
        es[i - 1] == n,
    ensures
        first_named(es, n) == Some(i - 1),
    decreases es.len(),
{
    if es.len() == i {
        assert(es.drop_last() =~= es.take(i - 1));
    } else {
        assert(es.drop_last().take(i - 1) =~= es.take(i - 1));
        lemma_first_named_prefix(es.drop_last(), n, i);
    }
}

/// Which entries to read for a batch of pages, opening the archive once: for a
/// zip, the entry of each name asked for, in that order; for a rar, the entries
/// asked for in archive order, stopping once as many were taken as names were
/// asked for. Names not found are left out. Other formats have no reader.
pub fn read_pages(format: Format, entry_names: &Vec<String>, names: &Vec<String>) -> (r: Result<Vec<usize>, String>)
    ensures
        format != Format::Zip && format != Format::Rar ==> (r matches Err(e) && e@ == unsupported_message(format)),
        format == Format::Zip ==> (r matches Ok(v) && index_view(v@) == zip_picks(name_views(entry_names@), name_views(names@))),
        format == Format::Rar ==> (r matches Ok(v) && index_view(v@) == rar_picks(
            name_views(entry_names@),
            name_views(names@),
            entry_names.len() as int,
        )),
{
    let ghost es = name_views(entry_names@);
    let ghost ns = name_views(names@);
    let mut out: Vec<usize> = Vec::new();
    match format {
        Format::Zip => {
            let mut j: usize = 0;
            while j < names.len()
                invariant
                    j <= names.len(),
                    es == name_views(entry_names@),
                    ns == name_views(names@),
                    index_view(out@) == zip_picks(es, ns.take(j as int)),
                decreases names.len() - j,
            {
                assert(ns.take(j + 1).drop_last() =~= ns.take(j as int));
                assert(ns.take(j + 1).last() == names@[j as int]@);
                match first_named_exec(entry_names, &names[j]) {
                    Some(k) => {
                        out.push(k);
                        assert(index_view(out@) =~= zip_picks(es, ns.take(j as int)).push(k as int));
                    },
                    None => {},
                }
                j = j + 1;
            }
            assert(ns.take(names.len() as int) =~= ns);
            Ok(out)
        },
        Format::Rar => {
            let mut i: usize = 0;
            let mut done: bool = false;
            while i < entry_names.len() && !done
                invariant
                    i <= entry_names.len(),
                    es == name_views(entry_names@),
                    ns == name_views(names@),
                    index_view(out@) == rar_picks(es, ns, i as int),
                    done ==> i > 0 && out.len() == names.len(),
                    i > 0 && out.len() == names.len() ==> done,
                    out.len() <= i,
                decreases entry_names.len() - i,
            {
                let wanted: bool = wanted_page(names, &entry_names[i]);
                assert(wanted == ns.contains(es[i as int])) by {
                    if wanted {
                        let k = choose|k: int| 0 <= k < names.len() && (#[trigger] names@[k])@ == entry_names@[i as int]@;
                        assert(ns[k] == es[i as int]);
                    }
                    if ns.contains(es[i as int]) {
                        let k = choose|k: int| 0 <= k < ns.len() && ns[k] == es[i as int];
                        assert(names@[k]@ == entry_names@[i as int]@);
                    }
                }
                if wanted {
                    out.push(i);
                    assert(index_view(out@) =~= rar_picks(es, ns, i as int).push(i as int));
                }
                i = i + 1;
                if out.len() == names.len() {
                    done = true;
                }
            }
            proof {
                lemma_rar_picks_stop(es, ns, i as int, entry_names.len() as int);
            }
            Ok(out)
        },
        _ => Err(unsupported(format)),
    }
}

/// The pages of a batch that could be read, in order: the name and bytes of
/// each outcome that succeeded.
pub open spec fn kept_pages(outcomes: Seq<(String, Result<Vec<u8>, String>)>) -> Seq<(String, Vec<u8>)>
    decreases outcomes.len(),
{
    if outcomes.len() == 0 {
        Seq::empty()
    } else {
        let p = kept_pages(outcomes.drop_last());
        match outcomes.last().1 {
            Ok(d) => p.push((outcomes.last().0, d)),
            Err(_) => p,
        }
    }
}

/// What a batch read returns from the read of each page it picked: the pages
/// that could be read, in the order read; a page that fails is left out rather
/// than failing the batch.
pub fn pages_read(outcomes: Vec<(String, Result<Vec<u8>, String>)>) -> (r: Vec<(String, Vec<u8>)>)
    ensures
        r@ == kept_pages(outcomes@),
{
    let ghost all = outcomes@;
    let mut rest = outcomes;
    let mut out: Vec<(String, Vec<u8>)> = Vec::new();
    let ghost mut i: int = 0;
    while rest.len() > 0
        invariant
            0 <= i <= all.len(),
            rest@ == all.skip(i),
            out@ == kept_pages(all.take(i)),
        decreases rest.len(),
    {
        let (name, outcome) = rest.remove(0);
        proof {
            assert(all[i] == (name, outcome));
            assert(all.take(i + 1).drop_last() =~= all.take(i));
            assert(all.take(i + 1).last() == all[i]);
            assert(all.skip(i).subrange(1, all.skip(i).len() as int) =~= all.skip(i + 1));
        }
        match outcome {
            Ok(d) => out.push((name, d)),
            Err(_) => {},
        }
        proof {
            i = i + 1;
        }
    }
    assert(all.take(all.len() as int) =~= all);
    out
}

/// Once the walk has stopped, later entries add nothing.
proof fn lemma_rar_picks_stop(es: Seq<Seq<char>>, ns: Seq<Seq<char>>, i: int, n: int)
    requires
        0 < i <= n || (i == n && n == 0),
        i < n ==> rar_picks(es, ns, i).len() == ns.len(),
    ensures
        rar_picks(es, ns, n) == rar_picks(es, ns, i),
    decreases n - i,
{
    if i < n {
        lemma_rar_picks_stop(es, ns, i, n - 1);
    }
}

/// The failure codes of the rar reader that the user is told about.
#[derive(Debug, Clone, Copy, PartialEq, Eq, Structural)]
pub enum RarCode {
    MissingPassword,
    BadPassword,
    BadArchive,
    UnknownFormat,
    BadData,
    EOpen,
    ERead,
    NoMemory,
    Other,
}

/// The message for a rar failure: the reader's own messages are terse codes in
/// English, and this text ends up on the comic's card. `detail` is the reader's
/// message, kept for failures without a message of their own.
pub open spec fn rar_message(code: RarCode, detail: Seq<char>) -> Seq<char> {
    match code {
        RarCode::MissingPassword | RarCode::BadPassword => "el archivo est\u{e1} protegido con contrase\u{f1}a"@,
        RarCode::BadArchive | RarCode::UnknownFormat => "el archivo est\u{e1} da\u{f1}ado o usa una variante de rar que no se reconoce"@,
        RarCode::BadData => "el archivo tiene datos corruptos"@,
        RarCode::EOpen | RarCode::ERead => "no se pudo leer el archivo del disco"@,
        RarCode::NoMemory => "no hay memoria suficiente para abrir el archivo"@,
        RarCode::Other => "el lector de rar fall\u{f3} ("@ + detail + ")"@,
    }
}

/// Explains a failure of the rar reader.
pub fn rar_error(code: RarCode, detail: &str) -> (r: String)
    ensures
        r@ == rar_message(code, detail@),
{
    match code {
        RarCode::MissingPassword | RarCode::BadPassword => "el archivo est\u{e1} protegido con contrase\u{f1}a".to_owned(),
        RarCode::BadArchive | RarCode::UnknownFormat => "el archivo est\u{e1} da\u{f1}ado o usa una variante de rar que no se reconoce".to_owned(),
        RarCode::BadData => "el archivo tiene datos corruptos".to_owned(),
        RarCode::EOpen | RarCode::ERead => "no se pudo leer el archivo del disco".to_owned(),
        RarCode::NoMemory => "no hay memoria suficiente para abrir el archivo".to_owned(),
        RarCode::Other => {
            let mut out: Vec<char> = chars_of("el lector de rar fall\u{f3} (");
            let d: Vec<char> = chars_of(detail);
            extend_chars(&mut out, &d);
            let close: Vec<char> = chars_of(")");
            extend_chars(&mut out, &close);
            string_of(&out)
        },
    }
}

/* ---------- Laws ---------- */

/// Whether the first bytes carry one of the known signatures.
pub open spec fn signed(head: Seq<u8>) -> bool {
    has_prefix(head, zip_local_sig()) || has_prefix(head, zip_empty_sig()) || has_prefix(head, rar_sig())
        || has_prefix(head, seven_zip_sig())
}

/// The content decides before the name: a file whose first bytes carry a known
/// signature is of the same format whatever its name (a `.cbr` that is really a
/// zip opens as a zip); only an unsigned file is judged by its extension.
pub proof fn lemma_signature_decides(head: Seq<u8>, a: Seq<char>, b: Seq<char>)
    ensures
        signed(head) ==> format_of(head, a) == format_of(head, b),
        !signed(head) ==> format_of(head, a) == format_of(Seq::empty(), a),
{
    assert(!has_prefix(Seq::<u8>::empty(), zip_local_sig()));
    assert(!has_prefix(Seq::<u8>::empty(), zip_empty_sig()));
    assert(!has_prefix(Seq::<u8>::empty(), rar_sig()));
    assert(!has_prefix(Seq::<u8>::empty(), seven_zip_sig()));
}

/// A name shown as a page: its lower-cased extension is `jpg`, `jpeg`, `png`,
/// `gif`, `webp` or `bmp`, its file name does not start with a dot, and it does
/// not lie under `__MACOSX`.
pub open spec fn shown_as_page(name: Seq<char>) -> bool {
    let e = extension(name);
    let base = after_last(lowercase(name), '/');
    &&& e == "jpg"@ || e == "jpeg"@ || e == "png"@ || e == "gif"@ || e == "webp"@ || e == "bmp"@
    &&& !(base.len() > 0 && base[0] == '.')
    &&& !contains(lowercase(name), "__macosx"@)
}

/// The image pages are exactly the names with one of the six image extensions
/// (in any case) that are neither hidden nor under `__MACOSX`.
pub proof fn lemma_page_names(name: Seq<char>)
    ensures
        is_image_name(name) <==> shown_as_page(name),
{
}

proof fn lemma_candidate_listed(entries: Seq<ArchiveEntry>, k: int)
    requires
        0 <= k < entries.len(),
        !entries[k].is_dir,
        is_image_name(entries[k].name@),
    ensures
        exists|j: int| 0 <= j < page_candidates(entries).len() && page_candidates(entries)[j] == entries[k].name,
    decreases entries.len(),
{
    let rest = page_candidates(entries.drop_last());
    if k == entries.len() - 1 {
        assert(page_candidates(entries)[rest.len() as int] == entries[k].name);
    } else {
        assert(entries.drop_last()[k] == entries[k]);
        lemma_candidate_listed(entries.drop_last(), k);
        let j = choose|j: int| 0 <= j < rest.len() && rest[j] == entries[k].name;
        assert(page_candidates(entries)[j] == entries[k].name);
    }
}

/// Every entry of an archive that is not a directory and is shown as a page is
/// listed among the pages.
pub proof fn lemma_pages_are_listed(entries: Seq<ArchiveEntry>, r: Seq<String>, p: Seq<int>, k: int)
    requires
        arranged(page_candidates(entries), r, p),
        0 <= k < entries.len(),
        !entries[k].is_dir,
        shown_as_page(entries[k].name@),
    ensures
        exists|j: int| 0 <= j < r.len() && r[j] == entries[k].name,
{
    lemma_page_names(entries[k].name@);
    lemma_candidate_listed(entries, k);
    let m = choose|m: int| 0 <= m < page_candidates(entries).len() && page_candidates(entries)[m] == entries[k].name;
    crate::natural::lemma_arranged_keeps(page_candidates(entries), r, p, m);
}

} // verus!

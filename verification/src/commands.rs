//! What the library shows: the listing of a folder, the data of a comic and of a
//! folder, and the state of a series (which issues you have and which are
//! missing). Reading the disk and the archives, and the thumbnail cache, are
//! done by the caller, which hands these functions what it found.

use vstd::prelude::*;
use base64::Engine;
use crate::archive::{is_comic, is_comic_name, mime_for, mime_of};
use crate::comicinfo::{
    guess_from_filename, guessed_number, guessed_series, issue_number, issue_number_of, opt_view,
    ComicInfoXml,
};
use crate::metron::SeriesHint;
use crate::natural::{arranged, natural_sort, sorted_by_name, stable_by_name, Named};
use crate::text::{chars_of, extend_chars, string_of};

verus! {

/* ---------- Values shown ---------- */

/// A comic of a folder listing.
pub struct ComicMeta {
    pub path: String,
    pub name: String,
}

/// A subfolder of a folder listing.
pub struct FolderMeta {
    pub path: String,
    pub name: String,
}

impl Named for ComicMeta {
    open spec fn name_view(&self) -> Seq<char> {
        self.name@
    }

    fn name_chars(&self) -> (r: Vec<char>) {
        chars_of(self.name.as_str())
    }
}

impl Named for FolderMeta {
    open spec fn name_view(&self) -> Seq<char> {
        self.name@
    }

    fn name_chars(&self) -> (r: Vec<char>) {
        chars_of(self.name.as_str())
    }
}

/// One level of the library. `parent` is `None` at the root, which is what
/// keeps navigation from going above the chosen folder. No covers or counts:
/// only what the file system tells without opening a single archive.
pub struct DirListing {
    pub path: String,
    pub parent: Option<String>,
    pub folders: Vec<FolderMeta>,
    pub comics: Vec<ComicMeta>,
}

/// The costly data of a comic. `error` travels to the interface instead of
/// making the comic disappear: a broken file must be seen, with the reason.
pub struct ComicInfo {
    pub cover: Option<String>,
    pub page_count: usize,
    pub error: Option<String>,
    /// Metadata of the embedded ComicInfo.xml, when the archive has one.
    pub meta: Option<ComicInfoXml>,
}

/// The state of a series in a folder.
pub struct SeriesInfo {
    pub series: Option<String>,
    pub publisher: Option<String>,
    /// Volume and year of the edition, when known: they tell apart the volumes
    /// of one title when looking the series up.
    pub volume: Option<u32>,
    pub year: Option<i32>,
    /// Total of issues that ComicInfo.xml declares, if it does.
    pub total: Option<u32>,
    /// Issues you have, in order.
    pub owned: Vec<u32>,
    /// Gaps between the first and the last issue you have, and up to `total`
    /// when it is known.
    pub missing: Vec<u32>,
    /// Comics with metadata and without.
    pub tagged: usize,
    pub untagged: usize,
    /// Series and numbers come from file names rather than metadata: a guess.
    pub guessed: bool,
}

/// Cover and count of a folder.
pub struct FolderInfo {
    pub cover: Option<String>,
    pub comic_count: usize,
}

/// What is cached with a thumbnail so the archive is not opened again: the
/// page count, whether there is a cover, the error, the metadata.
pub struct CachedMeta {
    pub page_count: usize,
    pub has_cover: bool,
    pub error: Option<String>,
    pub meta: Option<ComicInfoXml>,
}

/// The cached count of a folder and its first comic.
pub struct CachedFolder {
    pub comic_count: usize,
    pub first_comic: Option<String>,
}

/* ---------- Data URIs ---------- */

/// The standard base64 alphabet.
pub open spec fn b64_char(v: int) -> char {
    if v < 26 {
        ('A' as int + v) as char
    } else if v < 52 {
        ('a' as int + v - 26) as char
    } else if v < 62 {
        ('0' as int + v - 52) as char
    } else if v == 62 {
        '+'
    } else {
        '/'
    }
}

/// Standard base64 with `=` padding (RFC 4648).
pub open spec fn base64_of(bs: Seq<u8>) -> Seq<char>
    decreases bs.len(),
{
    let a = bs[0] as int;
    let b = bs[1] as int;
    let c = bs[2] as int;
    if bs.len() == 0 {
        Seq::empty()
    } else if bs.len() == 1 {
        seq![b64_char(a / 4), b64_char((a % 4) * 16), '=', '=']
    } else if bs.len() == 2 {
        seq![b64_char(a / 4), b64_char((a % 4) * 16 + b / 16), b64_char((b % 16) * 4), '=']
    } else {
        seq![
            b64_char(a / 4),
            b64_char((a % 4) * 16 + b / 16),
            b64_char((b % 16) * 4 + c / 64),
            b64_char(c % 64),
        ] + base64_of(bs.skip(3))
    }
}

/// Inputs whose base64 length fits in a `usize` (longer ones make the encoder
/// panic on overflow).
pub open spec fn encodable(bs: Seq<u8>) -> bool {
    (bs.len() / 3) * 4 + 4 <= usize::MAX
}

/// `base64::engine::general_purpose::STANDARD.encode`: the standard alphabet
/// with padding, as the crate documents it (RFC 4648). The encoder panics when
/// the length of its output overflows a `usize`; `requires` leaves those inputs out.
#[verifier::external_body]
fn base64_encode(bytes: &[u8]) -> (r: String)
    requires
        encodable(bytes@),
    ensures
        r@ == base64_of(bytes@),
{
    base64::engine::general_purpose::STANDARD.encode(bytes)
}

/// A JPEG image as a data URI.
pub fn to_data_uri(bytes: &[u8]) -> (r: String)
    requires
        encodable(bytes@),
    ensures
        r@ == cover_uri(bytes@),
{
    let mut v: Vec<char> = chars_of("data:image/jpeg;base64,");
    let b: String = base64_encode(bytes);
    let bv: Vec<char> = chars_of(b.as_str());
    extend_chars(&mut v, &bv);
    string_of(&v)
}

/// A page as a data URI, typed by its name's extension.
pub fn page_data_uri(name: &str, bytes: &[u8]) -> (r: String)
    requires
        encodable(bytes@),
    ensures
        r@ == "data:"@ + mime_of(name@) + ";base64,"@ + base64_of(bytes@),
{
    let mut v: Vec<char> = chars_of("data:");
    let mime: Vec<char> = chars_of(mime_for(name));
    extend_chars(&mut v, &mime);
    let sep: Vec<char> = chars_of(";base64,");
    extend_chars(&mut v, &sep);
    let b: String = base64_encode(bytes);
    let bv: Vec<char> = chars_of(b.as_str());
    extend_chars(&mut v, &bv);
    string_of(&v)
}

/* ---------- Thumbnails ---------- */

/// Longest side of a thumbnail, in pixels.
pub const THUMB_MAX_DIM: u32 = 340;
/// JPEG quality of thumbnails.
pub const THUMB_QUALITY: u8 = 78;
/// JPEG quality of a folder cover set by hand.
pub const COVER_QUALITY: u8 = 90;

/// `image::load_from_memory`, then `DynamicImage::thumbnail` into a
/// `max_dim` square and `JpegEncoder::new_with_quality(.., quality).encode_image`
/// of its RGB pixels; `None` when the bytes do not decode or the encoder fails.
/// Nothing is stated of the bytes that come back: the decoders choose their code
/// paths on the machine they run on, so no name is given to the result.
#[verifier::external_body]
fn encode_thumbnail(raw: &[u8], max_dim: u32, quality: u8) -> (r: Option<Vec<u8>>) {
    let img = image::load_from_memory(raw).ok()?;
    let thumb = img.thumbnail(max_dim, max_dim);
    let mut buf = std::io::Cursor::new(Vec::new());
    let mut encoder = image::codecs::jpeg::JpegEncoder::new_with_quality(&mut buf, quality);
    encoder.encode_image(&thumb.to_rgb8()).ok()?;
    Some(buf.into_inner())
}

/// The thumbnail of an image (a page, or a cover file), as it is shown and
/// cached: at most `THUMB_MAX_DIM` pixels a side, JPEG at `THUMB_QUALITY`;
/// `None` when the image cannot be read. The pixels are the image crate's.
pub fn make_thumb(raw: &[u8]) -> (r: Option<Vec<u8>>) {
    encode_thumbnail(raw, THUMB_MAX_DIM, THUMB_QUALITY)
}

pub open spec fn outcome_view(o: Result<Vec<u8>, Option<String>>) -> Result<Seq<u8>, Option<Seq<char>>> {
    match o {
        Ok(v) => Ok(v@),
        Err(None) => Err(None),
        Err(Some(e)) => Err(Some(e@)),
    }
}

/// `image::load_from_memory`, then `JpegEncoder::new_with_quality(.., quality)
/// .encode_image` of the RGB pixels: `Err(None)` when the bytes do not decode as
/// an image, `Err(Some(reason))` with the encoder's message when it fails.
/// Nothing is stated of which outcome comes or of the bytes: the decoders choose
/// their code paths on the machine they run on, so no name is given to the result.
#[verifier::external_body]
fn encode_jpeg(raw: &[u8], quality: u8) -> (r: Result<Vec<u8>, Option<String>>) {
    let img = match image::load_from_memory(raw) {
        Ok(img) => img,
        Err(_) => return Err(None),
    };
    let mut buf = std::io::Cursor::new(Vec::new());
    let mut encoder = image::codecs::jpeg::JpegEncoder::new_with_quality(&mut buf, quality);
    match encoder.encode_image(&img.to_rgb8()) {
        Ok(()) => Ok(buf.into_inner()),
        Err(e) => Err(Some(e.to_string())),
    }
}

/// What a folder cover set by hand becomes, or why it cannot be: the file is
/// not an image that can be read, or its conversion failed.
pub open spec fn cover_outcome(o: Result<Seq<u8>, Option<Seq<char>>>) -> Result<Seq<u8>, Seq<char>> {
    match o {
        Ok(v) => Ok(v),
        Err(None) => Err("el archivo no es una imagen que se pueda leer"@),
        Err(Some(e)) => Err("no se pudo convertir la imagen: "@ + e),
    }
}

pub open spec fn result_view(r: Result<Vec<u8>, String>) -> Result<Seq<u8>, Seq<char>> {
    match r {
        Ok(v) => Ok(v@),
        Err(e) => Err(e@),
    }
}

/// Explains the outcome of re-encoding a folder cover.
pub fn cover_result(outcome: Result<Vec<u8>, Option<String>>) -> (r: Result<Vec<u8>, String>)
    ensures
        result_view(r) == cover_outcome(outcome_view(outcome)),
{
    match outcome {
        Ok(v) => Ok(v),
        Err(None) => Err("el archivo no es una imagen que se pueda leer".to_owned()),
        Err(Some(e)) => {
            let mut out: Vec<char> = chars_of("no se pudo convertir la imagen: ");
            let d: Vec<char> = chars_of(e.as_str());
            extend_chars(&mut out, &d);
            Err(string_of(&out))
        },
    }
}

/// Whether `e` is how a failed cover conversion is explained.
pub open spec fn cover_failure(e: Seq<char>) -> bool {
    cover_outcome(Err(None)) == Err::<Seq<u8>, Seq<char>>(e) || exists|d: Seq<char>|
        cover_outcome(Err(Some(d))) == Err::<Seq<u8>, Seq<char>>(e)
}

/// The JPEG written as `cover.jpg` when a folder cover is set by hand: the image
/// is re-encoded (at `COVER_QUALITY`) rather than copied, which normalizes its
/// format and keeps files that could not be decoded later out of the library.
/// A failure is explained as `cover_result` says.
pub fn cover_jpeg(raw: &[u8]) -> (r: Result<Vec<u8>, String>)
    ensures
        r matches Err(e) ==> cover_failure(e@),
{
    cover_result(encode_jpeg(raw, COVER_QUALITY))
}

/* ---------- Names and paths ---------- */

/// The stem of a file name, as `Path::file_stem` takes it: the part before the
/// last dot, unless there is none, the dot comes first, or the name is `..`.
pub open spec fn stem_of(name: Seq<char>) -> Seq<char> {
    let ext = crate::archive::after_last(name, '.');
    let dot = name.len() - ext.len() - 1;
    if name == ".."@ || dot <= 0 {
        name
    } else {
        name.take(dot)
    }
}

/// `Path::file_stem` given the file name.
pub fn file_stem_of(name: &str) -> (r: String)
    ensures
        r@ == stem_of(name@),
{
    let v: Vec<char> = chars_of(name);
    let dots: Vec<char> = chars_of("..");
    if crate::text::chars_eq(&v, &dots) {
        return string_of(&v);
    }
    let mut i: usize = v.len();
    while i > 0 && v[i - 1] != '.'
        invariant
            i <= v.len(),
            forall|k: int| i <= k < v.len() ==> v@[k] != '.',
        decreases i,
    {
        i = i - 1;
    }
    proof {
        crate::archive::lemma_after_last(v@, '.', i as int);
    }
    if i <= 1 {
        string_of(&v)
    } else {
        let s: Vec<char> = crate::text::slice_chars(&v, 0, i - 1);
        assert(s@ =~= v@.take(i - 1));
        string_of(&s)
    }
}

/// The name shown for a path: its file name, or its stem when `strip_ext`; the
/// whole path when it has no file name.
pub open spec fn shown_name(path: Seq<char>, file_name: Option<Seq<char>>, strip_ext: bool) -> Seq<char> {
    match file_name {
        None => path,
        Some(f) => if strip_ext {
            stem_of(f)
        } else {
            f
        },
    }
}

/// The name shown for a path, given its file name (`Path::file_name`).
pub fn display_name(path: &str, file_name: Option<&str>, strip_ext: bool) -> (r: String)
    ensures
        r@ == shown_name(path@, match file_name {
            Some(f) => Some(f@),
            None => None,
        }, strip_ext),
{
    match file_name {
        None => path.to_owned(),
        Some(f) => if strip_ext {
            file_stem_of(f)
        } else {
            f.to_owned()
        },
    }
}

/// Checks that a path falls inside the library root. Without this, any path
/// coming from the interface would let the whole disk be walked.
///
/// `root` is the canonical root (`None` when it does not exist); `current` the
/// canonical path asked for (`None` when none was given, `Some(None)` when it
/// does not exist); `inside` whether that path starts with the root, as
/// `Path::starts_with` says. The result is the pair root, current path.
pub fn resolve_within(root: Option<String>, current: Option<Option<String>>, inside: bool) -> (r: Result<(String, String), String>)
    ensures
        root is None ==> (r matches Err(e) && e@ == "la carpeta de la biblioteca no existe"@),
        root is Some && current == Some(None::<String>) ==> (r matches Err(e) && e@ == "la carpeta no existe"@),
        root is Some && current != Some(None::<String>) && !inside ==> (r matches Err(e) && e@
            == "ruta fuera de la biblioteca"@),
        root is Some && current != Some(None::<String>) && inside ==> (r matches Ok(pair) && pair.0
            == root->0 && pair.1 == (match current {
            Some(Some(c)) => c,
            _ => root->0,
        })),
{
    let root: String = match root {
        Some(r) => r,
        None => {
            return Err("la carpeta de la biblioteca no existe".to_owned());
        },
    };
    let current: String = match current {
        Some(Some(c)) => c,
        Some(None) => {
            return Err("la carpeta no existe".to_owned());
        },
        None => root.clone(),
    };
    if !inside {
        return Err("ruta fuera de la biblioteca".to_owned());
    }
    Ok((root, current))
}

/// `Path::starts_with` from the standard library: whether `base` is a prefix of
/// `path` made of whole components. How a path splits into components depends
/// on the platform, so the contract states only that a path starts with itself.
#[verifier::external_body]
fn path_starts_with(path: &str, base: &str) -> (r: bool)
    ensures
        path@ == base@ ==> r,
{
    std::path::Path::new(path).starts_with(base)
}

/// Confines a path to the library: `root` is the canonical library root (`None`
/// when it does not exist), `current` the canonical path asked for (`None` when
/// none was given, `Some(None)` when it does not exist). Whether the path lies
/// under the root is asked of `Path::starts_with`; `resolve_within` decides the
/// rest.
pub fn confine(root: Option<String>, current: Option<Option<String>>) -> (r: Result<(String, String), String>)
    ensures
        root is None ==> (r matches Err(e) && e@ == "la carpeta de la biblioteca no existe"@),
        root is Some && current == Some(None::<String>) ==> (r matches Err(e) && e@ == "la carpeta no existe"@),
        root is Some && current is None ==> r == Ok::<(String, String), String>((root->0, root->0)),
        root is Some && current is Some && current->0 is Some ==> {
            ||| r == Ok::<(String, String), String>((root->0, current->0->0))
            ||| (r matches Err(e) && e@ == "ruta fuera de la biblioteca"@ && current->0->0@ != root->0@)
        },
{
    let inside: bool = match (&root, &current) {
        (Some(rt), Some(Some(c))) => path_starts_with(c.as_str(), rt.as_str()),
        _ => true,
    };
    resolve_within(root, current, inside)
}

/* ---------- Listing a folder ---------- */

/// What the file system says of a directory entry (without following links).
#[derive(Debug, Clone, Copy, PartialEq, Eq, Structural)]
pub enum EntryKind {
    Dir,
    File,
    /// Neither, or its metadata could not be read.
    Other,
}

/// A directory entry: its path, its file name, its kind, and for a directory
/// whether it is worth listing.
pub struct DirEntry {
    pub path: String,
    pub file_name: Option<String>,
    pub kind: EntryKind,
    pub worth_listing: bool,
}

/// A directory entry as the worth check sees it.
pub struct ChildEntry {
    pub path: String,
    pub kind: EntryKind,
}

pub open spec fn child_counts(e: ChildEntry) -> bool {
    e.kind == EntryKind::Dir || (e.kind == EntryKind::File && is_comic_name(e.path@))
}

/// Whether a folder is worth showing: it holds a comic, or a subfolder that may
/// hold one. One read of the directory, without walking the subtree.
pub fn worth_listing(children: &Vec<ChildEntry>) -> (r: bool)
    ensures
        r == exists|k: int| 0 <= k < children.len() && child_counts(#[trigger] children@[k]),
{
    let mut i: usize = 0;
    while i < children.len()
        invariant
            i <= children.len(),
            forall|k: int| 0 <= k < i ==> !child_counts(#[trigger] children@[k]),
        decreases children.len() - i,
    {
        let c: &ChildEntry = &children[i];
        if c.kind == EntryKind::Dir || (c.kind == EntryKind::File && is_comic(c.path.as_str())) {
            assert(child_counts(children@[i as int]));
            return true;
        }
        i = i + 1;
    }
    false
}

pub open spec fn name_of(e: DirEntry) -> Option<Seq<char>> {
    opt_view(e.file_name)
}

/// Entries listed as folders: directories worth listing.
pub open spec fn folder_entries(es: Seq<DirEntry>) -> Seq<DirEntry>
    decreases es.len(),
{
    if es.len() == 0 {
        Seq::empty()
    } else if es.last().kind == EntryKind::Dir && es.last().worth_listing {
        folder_entries(es.drop_last()).push(es.last())
    } else {
        folder_entries(es.drop_last())
    }
}

/// Entries listed as comics: files with a comic extension. They are listed
/// without being opened, so a broken comic is listed too.
pub open spec fn comic_entries(es: Seq<DirEntry>) -> Seq<DirEntry>
    decreases es.len(),
{
    if es.len() == 0 {
        Seq::empty()
    } else if es.last().kind == EntryKind::File && is_comic_name(es.last().path@) {
        comic_entries(es.drop_last()).push(es.last())
    } else {
        comic_entries(es.drop_last())
    }
}

/// `fs` lists the folders of `sel`, rearranged by `p`.
pub open spec fn lists_folders(sel: Seq<DirEntry>, fs: Seq<FolderMeta>, p: Seq<int>) -> bool {
    &&& fs.len() == sel.len()
    &&& p.len() == sel.len()
    &&& forall|k: int| 0 <= k < p.len() ==> 0 <= #[trigger] p[k] < sel.len()
    &&& forall|k: int, l: int| 0 <= k < l < p.len() ==> p[k] != p[l]
    &&& forall|k: int| 0 <= k < fs.len() ==> (#[trigger] fs[k]).path == sel[p[k]].path && fs[k].name@
        == shown_name(sel[p[k]].path@, name_of(sel[p[k]]), false)
}

/// `cs` lists the comics of `sel`, rearranged by `p`.
pub open spec fn lists_comics(sel: Seq<DirEntry>, cs: Seq<ComicMeta>, p: Seq<int>) -> bool {
    &&& cs.len() == sel.len()
    &&& p.len() == sel.len()
    &&& forall|k: int| 0 <= k < p.len() ==> 0 <= #[trigger] p[k] < sel.len()
    &&& forall|k: int, l: int| 0 <= k < l < p.len() ==> p[k] != p[l]
    &&& forall|k: int| 0 <= k < cs.len() ==> (#[trigger] cs[k]).path == sel[p[k]].path && cs[k].name@
        == shown_name(sel[p[k]].path@, name_of(sel[p[k]]), true)
}

fn entry_name(e: &DirEntry, strip_ext: bool) -> (r: String)
    ensures
        r@ == shown_name(e.path@, name_of(*e), strip_ext),
{
    match &e.file_name {
        Some(f) => display_name(e.path.as_str(), Some(f.as_str()), strip_ext),
        None => display_name(e.path.as_str(), None, strip_ext),
    }
}

/// The error given when a path that must be a folder is not one.
pub fn not_a_folder() -> (r: String)
    ensures
        r@ == "la ruta no es una carpeta"@,
{
    "la ruta no es una carpeta".to_owned()
}

/// One level of the library, from the entries of the folder `current` (a
/// directory when `current_is_dir`) under `root`. `parent` is the folder above
/// `current`. Folders and comics come in natural order of their names.
pub fn build_listing(root: &String, current: String, current_is_dir: bool, parent: Option<String>, entries: Vec<DirEntry>) -> (r: Result<DirListing, String>)
    ensures
        !current_is_dir ==> (r matches Err(e) && e@ == "la ruta no es una carpeta"@),
        current_is_dir ==> (r matches Ok(l) && {
            &&& l.path == current
            &&& l.parent == (if current@ == root@ { None } else { parent })
            &&& exists|p: Seq<int>| lists_folders(folder_entries(entries@), l.folders@, p) && stable_by_name(l.folders@, p)
            &&& sorted_by_name(l.folders@)
            &&& exists|p: Seq<int>| lists_comics(comic_entries(entries@), l.comics@, p) && stable_by_name(l.comics@, p)
            &&& sorted_by_name(l.comics@)
        }),
{
    if !current_is_dir {
        return Err(not_a_folder());
    }
    let mut folders: Vec<FolderMeta> = Vec::new();
    let mut comics: Vec<ComicMeta> = Vec::new();
    let ghost mut fsel: Seq<DirEntry> = Seq::empty();
    let ghost mut csel: Seq<DirEntry> = Seq::empty();
    let mut i: usize = 0;
    while i < entries.len()
        invariant
            i <= entries.len(),
            fsel == folder_entries(entries@.take(i as int)),
            csel == comic_entries(entries@.take(i as int)),
            folders.len() == fsel.len(),
            comics.len() == csel.len(),
            forall|k: int| 0 <= k < folders.len() ==> (#[trigger] folders@[k]).path == fsel[k].path && folders@[k].name@
                == shown_name(fsel[k].path@, name_of(fsel[k]), false),
            forall|k: int| 0 <= k < comics.len() ==> (#[trigger] comics@[k]).path == csel[k].path && comics@[k].name@
                == shown_name(csel[k].path@, name_of(csel[k]), true),
        decreases entries.len() - i,
    {
        let e: &DirEntry = &entries[i];
        assert(entries@.take(i + 1).drop_last() =~= entries@.take(i as int));
        assert(entries@.take(i + 1).last() == *e);
        if e.kind == EntryKind::Dir {
            if e.worth_listing {
                let name: String = entry_name(e, false);
                folders.push(FolderMeta { path: e.path.clone(), name });
                proof {
                    fsel = fsel.push(*e);
                }
            }
        } else if e.kind == EntryKind::File && is_comic(e.path.as_str()) {
            let name: String = entry_name(e, true);
            comics.push(ComicMeta { path: e.path.clone(), name });
            proof {
                csel = csel.push(*e);
            }
        }
        i = i + 1;
    }
    assert(entries@.take(entries.len() as int) =~= entries@);
    let ghost fb = folders@;
    let ghost cb = comics@;
    let folders: Vec<FolderMeta> = natural_sort(folders);
    let comics: Vec<ComicMeta> = natural_sort(comics);
    proof {
        assert(fsel == folder_entries(entries@));
        assert(csel == comic_entries(entries@));
        let fp = choose|p: Seq<int>| arranged(fb, folders@, p) && stable_by_name(folders@, p);
        assert(lists_folders(folder_entries(entries@), folders@, fp) && stable_by_name(folders@, fp));
        let cp = choose|p: Seq<int>| arranged(cb, comics@, p) && stable_by_name(comics@, p);
        assert(lists_comics(comic_entries(entries@), comics@, cp) && stable_by_name(comics@, cp));
    }
    let is_root: bool = current == *root;
    Ok(DirListing {
        path: current,
        parent: if is_root { None } else { parent },
        folders,
        comics,
    })
}

/// An entry met walking a folder's subtree, in walking order.
pub struct WalkEntry {
    pub path: String,
    pub is_file: bool,
}

pub open spec fn walked_comics(es: Seq<WalkEntry>) -> Seq<WalkEntry>
    decreases es.len(),
{
    if es.len() == 0 {
        Seq::empty()
    } else if es.last().is_file && is_comic_name(es.last().path@) {
        walked_comics(es.drop_last()).push(es.last())
    } else {
        walked_comics(es.drop_last())
    }
}

/// The first comic met walking a folder and the number of comics in it.
pub fn folder_stats(entries: &Vec<WalkEntry>) -> (r: (Option<String>, usize))
    ensures
        r.1 == walked_comics(entries@).len(),
        walked_comics(entries@).len() == 0 ==> r.0 is None,
        walked_comics(entries@).len() > 0 ==> r.0 == Some(walked_comics(entries@)[0].path),
{
    let mut first: Option<String> = None;
    let mut count: usize = 0;
    let mut i: usize = 0;
    while i < entries.len()
        invariant
            i <= entries.len(),
            count == walked_comics(entries@.take(i as int)).len(),
            count <= i,
            count == 0 ==> first is None,
            count > 0 ==> first == Some(walked_comics(entries@.take(i as int))[0].path),
        decreases entries.len() - i,
    {
        let e: &WalkEntry = &entries[i];
        assert(entries@.take(i + 1).drop_last() =~= entries@.take(i as int));
        assert(entries@.take(i + 1).last() == *e);
        if e.is_file && is_comic(e.path.as_str()) {
            if first.is_none() {
                first = Some(e.path.clone());
            }
            count = count + 1;
        }
        i = i + 1;
    }
    assert(entries@.take(entries.len() as int) =~= entries@);
    (first, count)
}

/// Paths of the comics of a subtree, in walking order: what marking a whole
/// collection read works on.
pub fn comic_paths(entries: Vec<WalkEntry>) -> (r: Vec<String>)
    ensures
        r@.len() == walked_comics(entries@).len(),
        forall|k: int| 0 <= k < r@.len() ==> #[trigger] r@[k] == walked_comics(entries@)[k].path,
{
    let mut out: Vec<String> = Vec::new();
    let mut i: usize = 0;
    while i < entries.len()
        invariant
            i <= entries.len(),
            out@.len() == walked_comics(entries@.take(i as int)).len(),
            forall|k: int| 0 <= k < out@.len() ==> #[trigger] out@[k] == walked_comics(entries@.take(i as int))[k].path,
        decreases entries.len() - i,
    {
        assert(entries@.take(i + 1).drop_last() =~= entries@.take(i as int));
        assert(entries@.take(i + 1).last() == entries@[i as int]);
        if entries[i].is_file && is_comic(entries[i].path.as_str()) {
            out.push(entries[i].path.clone());
        }
        i = i + 1;
    }
    assert(entries@.take(entries.len() as int) =~= entries@);
    out
}

/* ---------- A comic's data ---------- */

fn copy_opt_string(o: &Option<String>) -> (r: Option<String>)
    ensures
        r == *o,
{
    match o {
        Some(s) => Some(s.clone()),
        None => None,
    }
}

impl ComicInfoXml {
    /// A copy with the same fields.
    pub fn duplicate(&self) -> (r: ComicInfoXml)
        ensures
            r == *self,
    {
        ComicInfoXml {
            series: copy_opt_string(&self.series),
            number: copy_opt_string(&self.number),
            count: self.count,
            volume: self.volume,
            title: copy_opt_string(&self.title),
            publisher: copy_opt_string(&self.publisher),
            year: self.year,
            writer: copy_opt_string(&self.writer),
            summary: copy_opt_string(&self.summary),
            language_iso: copy_opt_string(&self.language_iso),
            manga: copy_opt_string(&self.manga),
        }
    }
}

fn copy_opt_meta(o: &Option<ComicInfoXml>) -> (r: Option<ComicInfoXml>)
    ensures
        r == *o,
{
    match o {
        Some(m) => Some(m.duplicate()),
        None => None,
    }
}

/// What a cache entry shows: the cover only when the entry says there is one.
pub open spec fn from_cache(meta: CachedMeta, cover: Option<String>) -> ComicInfo {
    ComicInfo {
        cover: if meta.has_cover { cover } else { None },
        page_count: meta.page_count,
        error: meta.error,
        meta: meta.meta,
    }
}

/// The comic's data from its cache entry; `cover` is the cached thumbnail as a
/// data URI, shown only when the entry says there is a cover.
pub fn info_from_cache(meta: CachedMeta, cover: Option<String>) -> (r: ComicInfo)
    ensures
        r == from_cache(meta, cover),
{
    ComicInfo {
        cover: if meta.has_cover { cover } else { None },
        page_count: meta.page_count,
        error: meta.error,
        meta: meta.meta,
    }
}

/// The page whose thumbnail is the cover: the first one listed.
pub fn cover_page(listing: &Result<Vec<String>, String>) -> (r: Option<String>)
    ensures
        r == (match listing {
            Ok(pages) => if pages@.len() > 0 {
                Some(pages@[0])
            } else {
                None
            },
            Err(_) => None,
        }),
{
    match listing {
        Ok(pages) => if pages.len() > 0 {
            Some(pages[0].clone())
        } else {
            None
        },
        Err(_) => None,
    }
}

pub open spec fn no_pages_message() -> Seq<char> {
    "el archivo no contiene p\u{e1}ginas legibles"@
}

pub open spec fn no_cover_message() -> Seq<char> {
    "no se pudo decodificar la portada"@
}

/// A fresh opening of a comic: `listing` is its page list or why it could not
/// be read, `thumb` the cover thumbnail, `xml` the metadata; `cached` is what
/// is stored of it and `shown` what is shown. A listing error, an archive
/// without pages and an undecodable cover are reported in the error.
pub open spec fn fresh_pair(
    listing: Result<Vec<String>, String>,
    thumb: Option<Vec<u8>>,
    xml: Option<ComicInfoXml>,
    cached: CachedMeta,
    shown: ComicInfo,
) -> bool {
    match listing {
        Err(e) => {
            &&& cached.page_count == 0 && !cached.has_cover && cached.error == Some(e) && cached.meta is None
            &&& shown.cover is None && shown.page_count == 0 && shown.error == Some(e) && shown.meta is None
        },
        Ok(pages) => if pages@.len() == 0 {
            &&& cached.page_count == 0 && !cached.has_cover && cached.meta is None
            &&& opt_view(cached.error) == Some(no_pages_message())
            &&& shown.cover is None && shown.page_count == 0 && shown.meta is None
            &&& opt_view(shown.error) == Some(no_pages_message())
        } else {
            &&& cached.page_count == pages@.len() && shown.page_count == pages@.len()
            &&& cached.has_cover == thumb is Some
            &&& cached.meta == xml && shown.meta == xml
            &&& cached.error == shown.error
            &&& opt_view(shown.error) == (if thumb is None { Some(no_cover_message()) } else { None })
            &&& (match thumb {
                Some(t) => shown.cover matches Some(c) && c@ == cover_uri(t@),
                None => shown.cover is None,
            })
        },
    }
}

/// The data of a comic opened afresh, and what is cached of it. `listing` is
/// the page list or the reason it could not be read; `thumb` the cover
/// thumbnail (JPEG bytes) and `xml` the embedded metadata, both read only when
/// there is a first page. A listing error, an archive without pages, and an
/// undecodable cover are reported in `error`.
pub fn comic_info_fresh(listing: Result<Vec<String>, String>, thumb: Option<Vec<u8>>, xml: Option<ComicInfoXml>) -> (r: (CachedMeta, ComicInfo))
    requires
        thumb matches Some(t) ==> encodable(t@),
    ensures
        fresh_pair(listing, thumb, xml, r.0, r.1),
{
    match listing {
        Err(e) => {
            let e2: String = e.clone();
            (
                CachedMeta { page_count: 0, has_cover: false, error: Some(e), meta: None },
                ComicInfo { cover: None, page_count: 0, error: Some(e2), meta: None },
            )
        },
        Ok(pages) => {
            if pages.len() == 0 {
                let msg: String = "el archivo no contiene p\u{e1}ginas legibles".to_owned();
                let msg2: String = "el archivo no contiene p\u{e1}ginas legibles".to_owned();
                return (
                    CachedMeta { page_count: 0, has_cover: false, error: Some(msg), meta: None },
                    ComicInfo { cover: None, page_count: 0, error: Some(msg2), meta: None },
                );
            }
            let page_count: usize = pages.len();
            let error: Option<String> = match &thumb {
                None => Some("no se pudo decodificar la portada".to_owned()),
                Some(_) => None,
            };
            let cover: Option<String> = match &thumb {
                Some(t) => Some(to_data_uri(t.as_slice())),
                None => None,
            };
            let error2: Option<String> = copy_opt_string(&error);
            let xml2: Option<ComicInfoXml> = copy_opt_meta(&xml);
            (
                CachedMeta { page_count, has_cover: thumb.is_some(), error, meta: xml },
                ComicInfo { cover, page_count, error: error2, meta: xml2 },
            )
        },
    }
}

/// Whether base64 of `len` bytes fits in memory, tested without overflow.
pub fn encodable_len(len: usize) -> (r: bool)
    ensures
        r == ((len / 3) * 4 + 4 <= usize::MAX),
{
    let q: usize = len / 3;
    let limit: usize = (usize::MAX - 4) / 4;
    assert((q <= limit) == (q * 4 + 4 <= usize::MAX)) by (nonlinear_arith)
        requires
            limit == (usize::MAX - 4) / 4,
            q >= 0,
            usize::MAX >= 4,
    ;
    q <= limit
}

/// A comic opened afresh: the thumbnail is made from `first_page` (the bytes
/// of its first page, when there is one and it could be read), then the data
/// and what is cached of it follow as `comic_info_fresh` says; the thumbnail is
/// returned too, to be stored. No thumbnail without a first page. `None` only
/// when a thumbnail was made that is too large to write as base64 in memory.
pub fn comic_info_opened(listing: Result<Vec<String>, String>, first_page: Option<Vec<u8>>, xml: Option<ComicInfoXml>) -> (r: Option<(CachedMeta, ComicInfo, Option<Vec<u8>>)>)
    ensures
        r is None ==> first_page is Some,
        r matches Some(out) ==> fresh_pair(listing, out.2, xml, out.0, out.1) && (first_page is None ==> out.2 is None),
{
    let thumb: Option<Vec<u8>> = match &first_page {
        Some(p) => make_thumb(p.as_slice()),
        None => None,
    };
    let ok: bool = match &thumb {
        Some(t) => encodable_len(t.len()),
        None => true,
    };
    if !ok {
        return None;
    }
    let kept: Option<Vec<u8>> = match &thumb {
        Some(t) => Some(t.clone()),
        None => None,
    };
    let (cached, shown) = comic_info_fresh(listing, thumb, xml);
    Some((cached, shown, kept))
}

/// The data URI of a cover thumbnail.
pub open spec fn cover_uri(thumb: Seq<u8>) -> Seq<char> {
    "data:image/jpeg;base64,"@ + base64_of(thumb)
}

/// A comic read back from its cache shows what its first opening showed: the
/// same cover (the stored thumbnail, as a data URI), page count, error and
/// metadata, without the archive being opened again.
pub proof fn lemma_cache_shows_the_first_opening(
    listing: Result<Vec<String>, String>,
    thumb: Option<Vec<u8>>,
    xml: Option<ComicInfoXml>,
    cached: CachedMeta,
    shown: ComicInfo,
    stored_cover: Option<String>,
)
    requires
        fresh_pair(listing, thumb, xml, cached, shown),
        thumb matches Some(t) ==> (stored_cover matches Some(c) && c@ == cover_uri(t@)),
    ensures
        opt_view(from_cache(cached, stored_cover).cover) == opt_view(shown.cover),
        from_cache(cached, stored_cover).page_count == shown.page_count,
        opt_view(from_cache(cached, stored_cover).error) == opt_view(shown.error),
        from_cache(cached, stored_cover).meta == shown.meta,
{
}

/* ---------- A folder's data ---------- */

/// The file names tried, in order, as the manual cover of a folder: the usual
/// `cover.*` and `folder.*` images.
pub fn folder_cover_candidates() -> (r: Vec<String>)
    ensures
        r@.len() == 8,
        r@[0]@ == "cover.jpg"@,
        r@[1]@ == "cover.jpeg"@,
        r@[2]@ == "cover.png"@,
        r@[3]@ == "cover.webp"@,
        r@[4]@ == "folder.jpg"@,
        r@[5]@ == "folder.jpeg"@,
        r@[6]@ == "folder.png"@,
        r@[7]@ == "folder.webp"@,
{
    let mut r: Vec<String> = Vec::new();
    r.push("cover.jpg".to_owned());
    r.push("cover.jpeg".to_owned());
    r.push("cover.png".to_owned());
    r.push("cover.webp".to_owned());
    r.push("folder.jpg".to_owned());
    r.push("folder.jpeg".to_owned());
    r.push("folder.png".to_owned());
    r.push("folder.webp".to_owned());
    r
}

/// The first thumbnail among `c`.
pub open spec fn first_thumb(c: Seq<Option<Vec<u8>>>) -> Option<Vec<u8>>
    decreases c.len(),
{
    if c.len() == 0 {
        None
    } else if c[0] is Some {
        c[0]
    } else {
        first_thumb(c.drop_first())
    }
}

proof fn lemma_first_thumb_skip(c: Seq<Option<Vec<u8>>>, i: int)
    requires
        0 <= i <= c.len(),
        forall|k: int| 0 <= k < i ==> #[trigger] c[k] is None,
    ensures
        first_thumb(c) == first_thumb(c.skip(i)),
    decreases i,
{
    if i > 0 {
        assert(c[0] is None);
        assert forall|k: int| 0 <= k < i - 1 implies #[trigger] c.drop_first()[k] is None by {
            assert(c.drop_first()[k] == c[k + 1]);
        }
        lemma_first_thumb_skip(c.drop_first(), i - 1);
        assert(c.drop_first().skip(i - 1) =~= c.skip(i));
    } else {
        assert(c.skip(0) =~= c);
    }
}

/// Finds the first thumbnail among `c`.
fn first_thumb_index(c: &Vec<Option<Vec<u8>>>) -> (r: Option<usize>)
    ensures
        match r {
            Some(i) => i < c.len() && c@[i as int] is Some && first_thumb(c@) == c@[i as int],
            None => first_thumb(c@) is None,
        },
{
    let mut i: usize = 0;
    while i < c.len()
        invariant
            i <= c.len(),
            forall|k: int| 0 <= k < i ==> #[trigger] c@[k] is None,
        decreases c.len() - i,
    {
        if c[i].is_some() {
            proof {
                lemma_first_thumb_skip(c@, i as int);
                assert(c@.skip(i as int)[0] == c@[i as int]);
            }
            return Some(i);
        }
        i = i + 1;
    }
    proof {
        lemma_first_thumb_skip(c@, i as int);
        assert(c@.skip(i as int).len() == 0);
    }
    None
}

/// Whether a folder's own cover images gave no thumbnail, so that its first
/// comic's cover is needed.
pub fn needs_comic_cover(candidate_thumbs: &Vec<Option<Vec<u8>>>) -> (r: bool)
    ensures
        r == (first_thumb(candidate_thumbs@) is None),
{
    first_thumb_index(candidate_thumbs).is_none()
}

/// The cover of a folder: the thumbnail of the first of its own cover images
/// (`folder_cover_candidates`, in that order) that gave one, else the thumbnail
/// of the first page of its first comic.
pub fn choose_cover(candidate_thumbs: Vec<Option<Vec<u8>>>, first_comic_thumb: Option<Vec<u8>>) -> (r: Option<Vec<u8>>)
    ensures
        r == (match first_thumb(candidate_thumbs@) {
            Some(t) => Some(t),
            None => first_comic_thumb,
        }),
{
    let mut candidate_thumbs = candidate_thumbs;
    match first_thumb_index(&candidate_thumbs) {
        Some(i) => candidate_thumbs.remove(i),
        None => first_comic_thumb,
    }
}

/// Cover and count of a folder; `cover` is the thumbnail chosen (the manual
/// cover, or else that of the first comic).
pub fn folder_info(cover: Option<Vec<u8>>, comic_count: usize) -> (r: FolderInfo)
    requires
        cover matches Some(t) ==> encodable(t@),
    ensures
        r.comic_count == comic_count,
        match cover {
            Some(t) => r.cover matches Some(c) && c@ == cover_uri(t@),
            None => r.cover is None,
        },
{
    FolderInfo {
        cover: match &cover {
            Some(t) => Some(to_data_uri(t.as_slice())),
            None => None,
        },
        comic_count,
    }
}

} // verus!

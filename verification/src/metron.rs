//! The decisions behind the optional link with the Metron comic database
//! (<https://metron.cloud>): which queries to send for a series, how to rank
//! the candidates it returns, how its answers become the application's values,
//! and how its failures are explained. The requests themselves, and the token in
//! the system keyring, are handled by the caller.

use vstd::prelude::*;
use vstd::utf8::encode_utf8;
use crate::comicinfo::opt_view;
use crate::text::{
    ascii_lower, is_ascii_char,
    chars_of, contains, decimal, decimal_int, exec_contains, exec_occurs_at, exec_starts_with,
    extend_chars, occurs_at, push_decimal, push_decimal_i64, starts_with, string_of, trim_chars,
    trim_ws,
};

verus! {

/// Whether an account is connected, and the requests left this minute and
/// today, when known.
pub struct MetronStatus {
    pub connected: bool,
    pub burst_remaining: Option<u32>,
    pub sustained_remaining: Option<u32>,
}

/// A series as Metron describes it, cut down to what is used.
pub struct MetronSeries {
    pub id: i64,
    pub name: String,
    pub year_began: Option<i32>,
    /// Issues of the series that Metron has on record.
    pub issue_count: Option<u32>,
    pub publisher: Option<String>,
    /// "Completed", "Ongoing"...: only the total of a finished series is final.
    pub status: Option<String>,
}

/// One of the series a search returns, as shown to the user when there are
/// several: the year and the volume tell apart the volumes of one title.
pub struct MetronCandidate {
    pub id: i64,
    pub name: String,
    pub year_began: Option<i32>,
    pub volume: Option<u32>,
    pub issue_count: Option<u32>,
}

/// An item of a series list answer. The name comes in `series` (and in `name`
/// in older answers).
pub struct SeriesListItem {
    pub id: i64,
    pub series: Option<String>,
    pub name: Option<String>,
    pub year_began: Option<i32>,
    pub volume: Option<u32>,
    pub issue_count: Option<u32>,
}

/// The name a list item is shown with.
pub open spec fn item_name(item: SeriesListItem) -> Seq<char> {
    match item.series {
        Some(s) => s@,
        None => match item.name {
            Some(n) => n@,
            None => "serie "@ + decimal_int(item.id as int),
        },
    }
}

impl SeriesListItem {
    /// The candidate a list item stands for.
    pub fn into_candidate(self) -> (c: MetronCandidate)
        ensures
            c.id == self.id,
            c.name@ == item_name(self),
            c.year_began == self.year_began,
            c.volume == self.volume,
            c.issue_count == self.issue_count,
    {
        let ghost item = self;
        let name: String = match self.series {
            Some(s) => s,
            None => match self.name {
                Some(n) => n,
                None => {
                    let mut v: Vec<char> = chars_of("serie ");
                    push_decimal_i64(&mut v, self.id);
                    string_of(&v)
                },
            },
        };
        MetronCandidate {
            name,
            id: self.id,
            year_began: self.year_began,
            volume: self.volume,
            issue_count: self.issue_count,
        }
    }
}

/// The status of a series, as loose text or as an object with a name.
pub enum StatusField {
    Text(String),
    Object { name: Option<String> },
}

impl StatusField {
    /// The status name, in either form.
    pub fn into_name(self) -> (r: Option<String>)
        ensures
            r == (match self {
                StatusField::Text(s) => Some(s),
                StatusField::Object { name } => name,
            }),
    {
        match self {
            StatusField::Text(s) => Some(s),
            StatusField::Object { name } => name,
        }
    }
}

/// A publisher reference in a series answer.
pub struct PublisherRef {
    pub name: Option<String>,
}

/// The detail answer for one series.
pub struct SeriesDetail {
    pub id: i64,
    pub name: String,
    pub year_began: Option<i32>,
    pub issue_count: Option<u32>,
    pub publisher: Option<PublisherRef>,
    pub status: Option<StatusField>,
}

/// The series a detail answer describes.
pub fn series_from_detail(detail: SeriesDetail) -> (s: MetronSeries)
    ensures
        s.id == detail.id,
        s.name == detail.name,
        s.year_began == detail.year_began,
        s.issue_count == detail.issue_count,
        s.publisher == (match detail.publisher {
            Some(p) => p.name,
            None => None,
        }),
        s.status == (match detail.status {
            Some(StatusField::Text(t)) => Some(t),
            Some(StatusField::Object { name }) => name,
            None => None,
        }),
{
    MetronSeries {
        id: detail.id,
        name: detail.name,
        year_began: detail.year_began,
        issue_count: detail.issue_count,
        publisher: match detail.publisher {
            Some(p) => p.name,
            None => None,
        },
        status: match detail.status {
            Some(s) => s.into_name(),
            None => None,
        },
    }
}

/// The count and first year of the list's best candidate fill what the detail
/// answer leaves out.
pub fn merge_detail(detail: MetronSeries, best: &MetronCandidate) -> (s: MetronSeries)
    ensures
        s.id == detail.id,
        s.name == detail.name,
        s.publisher == detail.publisher,
        s.status == detail.status,
        s.issue_count == (if detail.issue_count is Some { detail.issue_count } else { best.issue_count }),
        s.year_began == (if detail.year_began is Some { detail.year_began } else { best.year_began }),
{
    let mut detail = detail;
    detail.issue_count = match detail.issue_count {
        Some(n) => Some(n),
        None => best.issue_count,
    };
    detail.year_began = match detail.year_began {
        Some(y) => Some(y),
        None => best.year_began,
    };
    detail
}

/// The status shown without asking Metron: whether a token is stored.
pub fn status_for(connected: bool) -> (s: MetronStatus)
    ensures
        s.connected == connected,
        s.burst_remaining is None,
        s.sustained_remaining is None,
{
    MetronStatus { connected, burst_remaining: None, sustained_remaining: None }
}

/// The status after an answer, with the request limits read from its headers.
pub fn status_with_limits(burst: Option<u32>, sustained: Option<u32>) -> (s: MetronStatus)
    ensures
        s.connected,
        s.burst_remaining == burst,
        s.sustained_remaining == sustained,
{
    MetronStatus { connected: true, burst_remaining: burst, sustained_remaining: sustained }
}

/// The value of a rate-limit header, read as a `u32` the way `str::parse` reads it.
pub fn header_u32(value: &str) -> (r: Option<u32>)
    ensures
        r matches Some(n) ==> crate::text::parse_unsigned(value@, u32::MAX as int) == Some(n as int),
        r is None ==> crate::text::parse_unsigned(value@, u32::MAX as int) is None,
{
    let v: Vec<char> = chars_of(value);
    crate::text::parse_u32(&v)
}

/// A token as stored: trimmed, and refused when nothing is left.
pub fn clean_token(token: &str) -> (r: Result<String, String>)
    ensures
        trim_ws(token@).len() > 0 ==> (r matches Ok(t) && t@ == trim_ws(token@)),
        trim_ws(token@).len() == 0 ==> (r matches Err(e) && e@ == "el token est\u{e1} vac\u{ed}o"@),
{
    let v: Vec<char> = chars_of(token);
    let t: Vec<char> = trim_chars(&v);
    if t.len() == 0 {
        Err("el token est\u{e1} vac\u{ed}o".to_owned())
    } else {
        Ok(string_of(&t))
    }
}

/// The error given when no account is connected.
pub fn not_connected() -> (r: String)
    ensures
        r@ == "no hay ninguna cuenta de Metron conectada"@,
{
    "no hay ninguna cuenta de Metron conectada".to_owned()
}

fn prefixed(prefix: &str, detail: &str) -> (r: String)
    ensures
        r@ == prefix@ + detail@,
{
    let mut v: Vec<char> = chars_of(prefix);
    let d: Vec<char> = chars_of(detail);
    extend_chars(&mut v, &d);
    string_of(&v)
}

/// The explanation of a request that got no answer: a timeout, or another
/// connection failure described by `detail`.
pub fn connect_error(is_timeout: bool, detail: &str) -> (r: String)
    ensures
        is_timeout ==> r@ == "Metron no respondi\u{f3} a tiempo"@,
        !is_timeout ==> r@ == "no se pudo conectar con Metron: "@ + detail@,
{
    if is_timeout {
        "Metron no respondi\u{f3} a tiempo".to_owned()
    } else {
        prefixed("no se pudo conectar con Metron: ", detail)
    }
}

/// The explanation of an answer that could not be read.
pub fn unexpected_response(detail: &str) -> (r: String)
    ensures
        r@ == "respuesta inesperada de Metron: "@ + detail@,
{
    prefixed("respuesta inesperada de Metron: ", detail)
}

/// The HTTP status of a failed answer, in words the user can follow.
pub open spec fn status_message(code: u16) -> Seq<char> {
    if code == 401 || code == 403 {
        "el token de Metron no es v\u{e1}lido o ha caducado"@
    } else if code == 429 {
        "has alcanzado el l\u{ed}mite de peticiones de Metron; espera un poco"@
    } else if code >= 500 {
        "Metron est\u{e1} teniendo problemas; int\u{e9}ntalo m\u{e1}s tarde"@
    } else {
        "Metron respondi\u{f3} con el c\u{f3}digo "@ + decimal(code as nat)
    }
}

/// Turns an HTTP status code into a message the user can understand.
pub fn describe_status(code: u16) -> (r: String)
    ensures
        r@ == status_message(code),
{
    if code == 401 || code == 403 {
        "el token de Metron no es v\u{e1}lido o ha caducado".to_owned()
    } else if code == 429 {
        "has alcanzado el l\u{ed}mite de peticiones de Metron; espera un poco".to_owned()
    } else if code >= 500 {
        "Metron est\u{e1} teniendo problemas; int\u{e9}ntalo m\u{e1}s tarde".to_owned()
    } else {
        let mut v: Vec<char> = chars_of("Metron respondi\u{f3} con el c\u{f3}digo ");
        push_decimal(&mut v, code as u128);
        string_of(&v)
    }
}

/* ---------- Comparing names ---------- */

/// What `char::to_lowercase` yields for a character (Unicode lower case).
pub uninterp spec fn char_lowercase(c: char) -> Seq<char>;

/// What `char::is_alphanumeric` says of a character (Unicode alphabetic or numeric).
pub uninterp spec fn alphanumeric(c: char) -> bool;

/// ASCII letters and digits.
pub open spec fn is_ascii_alnum(c: char) -> bool {
    ('a' <= c <= 'z') || ('A' <= c <= 'Z') || ('0' <= c <= '9')
}

/// The upper case of an ASCII character: `a`..`z` become `A`..`Z`, the rest stay.
pub open spec fn ascii_upper(c: char) -> char {
    if 'a' <= c <= 'z' {
        ((c as int) - 32) as char
    } else {
        c
    }
}

/// What `char::to_lowercase` yields, with what the Unicode data fixes spelled
/// out: an ASCII character maps to its ASCII lower case, and an accented lower
/// case letter that `unaccent` strips has no lower-case mapping, so it stays.
pub open spec fn lower_of(c: char) -> Seq<char> {
    if is_ascii_char(c) {
        seq![ascii_lower(c)]
    } else if unaccent(c) != c {
        seq![c]
    } else {
        char_lowercase(c)
    }
}

/// What `char::is_alphanumeric` says, with the ASCII answer spelled out: among
/// ASCII characters only letters and digits are alphabetic or numeric.
pub open spec fn alnum_of(c: char) -> bool {
    if is_ascii_char(c) {
        is_ascii_alnum(c)
    } else {
        alphanumeric(c)
    }
}

/// `char::to_lowercase`, collected. The contract ties the result to
/// `char_lowercase` and states the mappings that the Unicode data gives plainly:
/// for ASCII characters (only `A`..`Z` change) and for the accented lower-case
/// letters of `unaccent`, which have no lower-case mapping and so yield
/// themselves. The rest of the Unicode tables is not restated.
#[verifier::external_body]
fn lower_char(c: char) -> (r: Vec<char>)
    ensures
        r@ == char_lowercase(c),
        is_ascii_char(c) ==> r@ == seq![ascii_lower(c)],
        unaccent(c) != c ==> r@ == seq![c],
{
    c.to_lowercase().collect()
}

/// `char::is_alphanumeric` (Unicode `Alphabetic` or `Numeric`). The contract ties
/// the result to `alphanumeric` and states the ASCII answer, which the Unicode
/// data gives plainly: letters and digits only. The rest of the tables is not
/// restated.
#[verifier::external_body]
fn is_alnum(c: char) -> (r: bool)
    ensures
        r == alphanumeric(c),
        is_ascii_char(c) ==> r == is_ascii_alnum(c),
{
    c.is_alphanumeric()
}

/// Accented Spanish and Portuguese vowels, `ñ` and `ç` without their marks.
pub open spec fn unaccent(c: char) -> char {
    if c == '\u{e1}' || c == '\u{e0}' || c == '\u{e2}' || c == '\u{e4}' || c == '\u{e3}' {
        'a'
    } else if c == '\u{e9}' || c == '\u{e8}' || c == '\u{ea}' || c == '\u{eb}' {
        'e'
    } else if c == '\u{ed}' || c == '\u{ec}' || c == '\u{ee}' || c == '\u{ef}' {
        'i'
    } else if c == '\u{f3}' || c == '\u{f2}' || c == '\u{f4}' || c == '\u{f6}' || c == '\u{f5}' {
        'o'
    } else if c == '\u{fa}' || c == '\u{f9}' || c == '\u{fb}' || c == '\u{fc}' {
        'u'
    } else if c == '\u{f1}' {
        'n'
    } else if c == '\u{e7}' {
        'c'
    } else {
        c
    }
}

fn unaccent_exec(c: char) -> (r: char)
    ensures
        r == unaccent(c),
{
    if c == '\u{e1}' || c == '\u{e0}' || c == '\u{e2}' || c == '\u{e4}' || c == '\u{e3}' {
        'a'
    } else if c == '\u{e9}' || c == '\u{e8}' || c == '\u{ea}' || c == '\u{eb}' {
        'e'
    } else if c == '\u{ed}' || c == '\u{ec}' || c == '\u{ee}' || c == '\u{ef}' {
        'i'
    } else if c == '\u{f3}' || c == '\u{f2}' || c == '\u{f4}' || c == '\u{f6}' || c == '\u{f5}' {
        'o'
    } else if c == '\u{fa}' || c == '\u{f9}' || c == '\u{fb}' || c == '\u{fc}' {
        'u'
    } else if c == '\u{f1}' {
        'n'
    } else if c == '\u{e7}' {
        'c'
    } else {
        c
    }
}

/// Lower-cased characters, unaccented, keeping the letters and digits.
pub open spec fn fold_lowered(cs: Seq<char>) -> Seq<char>
    decreases cs.len(),
{
    if cs.len() == 0 {
        Seq::empty()
    } else if alnum_of(unaccent(cs.last())) {
        fold_lowered(cs.drop_last()).push(unaccent(cs.last()))
    } else {
        fold_lowered(cs.drop_last())
    }
}

/// A name reduced for comparison: lower case, no accents, only letters and digits.
pub open spec fn folded(s: Seq<char>) -> Seq<char>
    decreases s.len(),
{
    if s.len() == 0 {
        Seq::empty()
    } else {
        folded(s.drop_last()) + fold_lowered(lower_of(s.last()))
    }
}

/// Drops accents and everything but letters and digits, so that names that
/// differ only in punctuation compare equal: `Spider-Man`, `Spiderman` and
/// `Spider Man` count as the same.
pub fn fold(text: &str) -> (r: String)
    ensures
        r@ == folded(text@),
{
    let v: Vec<char> = chars_of(text);
    let mut out: Vec<char> = Vec::new();
    let mut i: usize = 0;
    while i < v.len()
        invariant
            i <= v.len(),
            out@ == folded(v@.take(i as int)),
        decreases v.len() - i,
    {
        let lower: Vec<char> = lower_char(v[i]);
        assert(lower@ == lower_of(v@[i as int]));
        let ghost before = out@;
        let mut j: usize = 0;
        while j < lower.len()
            invariant
                j <= lower.len(),
                out@ == before + fold_lowered(lower@.take(j as int)),
            decreases lower.len() - j,
        {
            let c: char = unaccent_exec(lower[j]);
            assert(lower@.take(j + 1).drop_last() =~= lower@.take(j as int));
            if is_alnum(c) {
                out.push(c);
            }
            j = j + 1;
            assert(out@ =~= before + fold_lowered(lower@.take(j as int)));
        }
        assert(lower@.take(lower.len() as int) =~= lower@);
        assert(v@.take(i + 1).drop_last() =~= v@.take(i as int));
        i = i + 1;
    }
    assert(v@.take(v.len() as int) =~= v@);
    string_of(&out)
}

/// What comes before the first `c` (`s.split(c).next()`).
pub open spec fn before_first(s: Seq<char>, c: char) -> Seq<char>
    decreases s.len(),
{
    if s.len() == 0 {
        s
    } else if s[0] == c {
        Seq::empty()
    } else {
        seq![s[0]] + before_first(s.drop_first(), c)
    }
}

fn before_first_exec(v: &Vec<char>, c: char) -> (r: Vec<char>)
    ensures
        r@ == before_first(v@, c),
{
    let mut i: usize = 0;
    assert(v@.skip(0) =~= v@);
    assert(v@.take(0) + v@ =~= v@);
    while i < v.len() && v[i] != c
        invariant
            i <= v.len(),
            before_first(v@, c) == v@.take(i as int) + before_first(v@.skip(i as int), c),
        decreases v.len() - i,
    {
        assert(v@.skip(i as int)[0] == v@[i as int]);
        assert(v@.skip(i as int).drop_first() =~= v@.skip(i + 1));
        assert(v@.take(i + 1) =~= v@.take(i as int) + seq![v@[i as int]]);
        i = i + 1;
    }
    if i < v.len() {
        assert(v@.skip(i as int)[0] == v@[i as int]);
    } else {
        assert(v@.skip(i as int) =~= Seq::<char>::empty());
    }
    assert(v@.subrange(0, i as int) =~= v@.take(i as int));
    crate::text::slice_chars(v, 0, i)
}

/// Points for how well a folded name matches the folded name sought.
pub open spec fn name_points(name: Seq<char>, wanted: Seq<char>) -> int {
    if name == wanted {
        100
    } else if starts_with(name, wanted) || starts_with(wanted, name) {
        40
    } else if contains(name, wanted) || contains(wanted, name) {
        10
    } else {
        0
    }
}

/// How much a candidate looks like what was sought. A whole-name match weighs
/// most; year and volume decide between the volumes of one title; a known
/// issue count breaks ties.
pub open spec fn score_of(c: MetronCandidate, wanted: Seq<char>, year: Option<i32>, volume: Option<u32>) -> int {
    name_points(folded(before_first(c.name@, '(')), folded(wanted)) + (match (year, c.year_began) {
        (Some(a), Some(b)) => if a == b {
            30int
        } else {
            -10
        },
        _ => 0,
    }) + (match (volume, c.volume) {
        (Some(a), Some(b)) => if a == b {
            20int
        } else {
            -5
        },
        _ => 0,
    }) + (if c.issue_count is Some {
        2int
    } else {
        0
    })
}

/// Scores how much a candidate looks like what was sought.
pub fn score(c: &MetronCandidate, wanted: &str, year: Option<i32>, volume: Option<u32>) -> (r: i32)
    ensures
        r as int == score_of(*c, wanted@, year, volume),
{
    let w_s: String = fold(wanted);
    let w: Vec<char> = chars_of(w_s.as_str());
    let cn: Vec<char> = chars_of(c.name.as_str());
    let bare_v: Vec<char> = before_first_exec(&cn, '(');
    let bare: String = string_of(&bare_v);
    let n_s: String = fold(bare.as_str());
    let n: Vec<char> = chars_of(n_s.as_str());
    let mut points: i32 = if crate::text::chars_eq(&n, &w) {
        100
    } else if exec_starts_with(&n, &w) || exec_starts_with(&w, &n) {
        40
    } else if exec_contains(&n, &w) || exec_contains(&w, &n) {
        10
    } else {
        0
    };
    match (year, c.year_began) {
        (Some(a), Some(b)) => {
            points = points + if a == b {
                30
            } else {
                -10
            };
        },
        _ => {},
    }
    match (volume, c.volume) {
        (Some(a), Some(b)) => {
            points = points + if a == b {
                20
            } else {
                -5
            };
        },
        _ => {},
    }
    if c.issue_count.is_some() {
        points = points + 2;
    }
    points
}

/* ---------- Searching ---------- */

/// Bytes that pass through a query unchanged.
pub open spec fn is_unreserved(b: u8) -> bool {
    (0x41 <= b <= 0x5a) || (0x61 <= b <= 0x7a) || (0x30 <= b <= 0x39) || b == 0x2d || b == 0x5f
        || b == 0x2e || b == 0x7e
}

pub open spec fn hex_upper(d: nat) -> char {
    if d < 10 {
        ('0' as int + d) as char
    } else {
        ('A' as int + d - 10) as char
    }
}

/// How one byte is written in a query.
pub open spec fn url_byte(b: u8) -> Seq<char> {
    if is_unreserved(b) {
        seq![b as char]
    } else if b == 0x20 {
        seq!['+']
    } else {
        seq!['%', hex_upper((b / 16) as nat), hex_upper((b % 16) as nat)]
    }
}

pub open spec fn url_encoded(bs: Seq<u8>) -> Seq<char>
    decreases bs.len(),
{
    if bs.len() == 0 {
        Seq::empty()
    } else {
        url_encoded(bs.drop_last()) + url_byte(bs.last())
    }
}

fn hex_upper_exec(d: u8) -> (c: char)
    requires
        d < 16,
    ensures
        c == hex_upper(d as nat),
{
    if d < 10 {
        (48u8 + d) as char
    } else {
        (55u8 + d) as char
    }
}

/// Encodes text for a query. Only safe bytes pass; spaces become `+` and the
/// rest go as `%XX`, so a name with `&` or spaces cannot break or alter the URL.
pub fn urlencoding_encode(text: &str) -> (r: String)
    ensures
        r@ == url_encoded(encode_utf8(text@)),
{
    let bytes: &[u8] = text.as_bytes();
    let mut out: Vec<char> = Vec::new();
    let mut i: usize = 0;
    while i < bytes.len()
        invariant
            i <= bytes.len(),
            bytes@ == encode_utf8(text@),
            out@ == url_encoded(bytes@.take(i as int)),
        decreases bytes.len() - i,
    {
        let b: u8 = bytes[i];
        let ghost before = out@;
        if (0x41 <= b && b <= 0x5a) || (0x61 <= b && b <= 0x7a) || (0x30 <= b && b <= 0x39) || b
            == 0x2d || b == 0x5f || b == 0x2e || b == 0x7e {
            out.push(b as char);
        } else if b == 0x20 {
            out.push('+');
        } else {
            out.push('%');
            out.push(hex_upper_exec(b / 16));
            out.push(hex_upper_exec(b % 16));
        }
        assert(bytes@.take(i + 1).drop_last() =~= bytes@.take(i as int));
        i = i + 1;
        assert(out@ =~= before + url_byte(b));
    }
    assert(bytes@.take(bytes.len() as int) =~= bytes@);
    string_of(&out)
}

/// What a folder or file name says of its series, once cleaned: the name, and
/// the volume and year it carries, when found.
pub struct SeriesHint {
    pub name: Option<String>,
    pub volume: Option<u32>,
    pub year: Option<i32>,
}

/// The queries for a series search, from the most precise to the broadest.
pub struct SearchPlan {
    /// The name searched for.
    pub base: String,
    pub year: Option<i32>,
    pub volume: Option<u32>,
    /// Query strings, tried in order until one returns something.
    pub queries: Vec<String>,
}

/// The first position from `from` on where `p` occurs in `s`.
pub open spec fn first_at(s: Seq<char>, p: Seq<char>, from: int) -> Option<int>
    decreases s.len() + 1 - from,
{
    if from < 0 || from > s.len() {
        None
    } else if occurs_at(s, p, from) {
        Some(from)
    } else {
        first_at(s, p, from + 1)
    }
}

/// The title before a subtitle: what comes before the first ` - `, or else
/// before the first `: `, trimmed.
pub open spec fn head_of(base: Seq<char>) -> Option<Seq<char>> {
    match first_at(base, " - "@, 0) {
        Some(i) => Some(trim_ws(base.take(i))),
        None => match first_at(base, ": "@, 0) {
            Some(i) => Some(trim_ws(base.take(i))),
            None => None,
        },
    }
}

fn first_at_exec(s: &Vec<char>, p: &Vec<char>) -> (r: Option<usize>)
    ensures
        r matches Some(i) ==> first_at(s@, p@, 0) == Some(i as int),
        r is None ==> first_at(s@, p@, 0) is None,
{
    let mut i: usize = 0;
    while i < s.len()
        invariant
            i <= s.len(),
            first_at(s@, p@, 0) == first_at(s@, p@, i as int),
        decreases s.len() - i,
    {
        if exec_occurs_at(s, p, i) {
            return Some(i);
        }
        i = i + 1;
    }
    if exec_occurs_at(s, p, s.len()) {
        return Some(s.len());
    }
    assert(first_at(s@, p@, s.len() + 1) is None);
    None
}

/// The query text `q=<encoded>`.
pub open spec fn q_param(encoded: Seq<char>) -> Seq<char> {
    "q="@ + encoded
}

/// The query with the year and volume filters that are known.
pub open spec fn filtered_query(encoded: Seq<char>, year: Option<i32>, volume: Option<u32>) -> Seq<char> {
    q_param(encoded) + (match year {
        Some(y) => "&year_began="@ + decimal_int(y as int),
        None => Seq::empty(),
    }) + (match volume {
        Some(v) => "&volume="@ + decimal(v as nat),
        None => Seq::empty(),
    })
}

/// The queries of a search for `base`: with the filters when there are any,
/// then the name alone, then the title without its subtitle when that is at
/// least three bytes long and differs from the name.
pub open spec fn planned_queries(base: Seq<char>, year: Option<i32>, volume: Option<u32>) -> Seq<Seq<char>> {
    let enc = url_encoded(encode_utf8(base));
    let first = if year is Some || volume is Some {
        seq![filtered_query(enc, year, volume)]
    } else {
        Seq::empty()
    };
    let last = match head_of(base) {
        Some(h) => if encode_utf8(h).len() >= 3 && h != base {
            seq![q_param(url_encoded(encode_utf8(h)))]
        } else {
            Seq::empty()
        },
        None => Seq::empty(),
    };
    first + seq![q_param(enc)] + last
}

/// The name searched for: the cleaned name, or else the given name trimmed,
/// when not blank.
pub open spec fn search_base(name: Seq<char>, hint_name: Option<Seq<char>>) -> Option<Seq<char>> {
    match hint_name {
        Some(n) => Some(n),
        None => if trim_ws(name).len() > 0 {
            Some(trim_ws(name))
        } else {
            None
        },
    }
}

pub open spec fn string_views(v: Seq<String>) -> Seq<Seq<char>> {
    v.map_values(|s: String| s@)
}

fn q_of(encoded: &Vec<char>) -> (r: Vec<char>)
    ensures
        r@ == q_param(encoded@),
{
    let mut q: Vec<char> = chars_of("q=");
    extend_chars(&mut q, encoded);
    q
}

/// Plans a series search. `hint` is what the name says of itself once cleaned;
/// `year` and `volume`, when given, take precedence over it. `None` when there
/// is no name to search for.
pub fn search_plan(name: &str, hint: SeriesHint, year: Option<i32>, volume: Option<u32>) -> (r: Option<SearchPlan>)
    ensures
        search_base(name@, opt_view(hint.name)) is None ==> r is None,
        search_base(name@, opt_view(hint.name)) matches Some(b) ==> (r matches Some(plan) && {
            &&& plan.base@ == b
            &&& plan.year == (if year is Some { year } else { hint.year })
            &&& plan.volume == (if volume is Some { volume } else { hint.volume })
            &&& string_views(plan.queries@) == planned_queries(b, plan.year, plan.volume)
        }),
{
    let base: String = match hint.name {
        Some(n) => n,
        None => {
            let v: Vec<char> = chars_of(name);
            let t: Vec<char> = trim_chars(&v);
            if t.len() == 0 {
                return None;
            }
            string_of(&t)
        },
    };
    let year: Option<i32> = match year {
        Some(y) => Some(y),
        None => hint.year,
    };
    let volume: Option<u32> = match volume {
        Some(v) => Some(v),
        None => hint.volume,
    };
    let enc_s: String = urlencoding_encode(base.as_str());
    let enc: Vec<char> = chars_of(enc_s.as_str());
    let ghost enc_v = url_encoded(encode_utf8(base@));
    assert(enc@ == enc_v);
    let mut queries: Vec<String> = Vec::new();
    let ghost first: Seq<Seq<char>> = if year is Some || volume is Some {
        seq![filtered_query(enc_v, year, volume)]
    } else {
        Seq::empty()
    };
    assert(string_views(queries@) =~= Seq::<Seq<char>>::empty());
    if year.is_some() || volume.is_some() {
        let mut q: Vec<char> = q_of(&enc);
        match year {
            Some(y) => {
                let mut part: Vec<char> = chars_of("&year_began=");
                push_decimal_i64(&mut part, y as i64);
                extend_chars(&mut q, &part);
            },
            None => {},
        }
        match volume {
            Some(v) => {
                let mut part: Vec<char> = chars_of("&volume=");
                push_decimal(&mut part, v as u128);
                extend_chars(&mut q, &part);
            },
            None => {},
        }
        assert(q@ =~= filtered_query(enc@, year, volume));
        queries.push(string_of(&q));
    }
    assert(string_views(queries@) =~= first);
    let plain: Vec<char> = q_of(&enc);
    queries.push(string_of(&plain));
    assert(string_views(queries@) =~= first + seq![q_param(enc_v)]);
    let ghost mid = first + seq![q_param(enc_v)];
    let bv: Vec<char> = chars_of(base.as_str());
    let dash: Vec<char> = chars_of(" - ");
    let colon: Vec<char> = chars_of(": ");
    let cut: Option<usize> = match first_at_exec(&bv, &dash) {
        Some(i) => Some(i),
        None => first_at_exec(&bv, &colon),
    };
    match cut {
        Some(i) => {
            proof {
                if first_at(bv@, dash@, 0) is None {
                    assert(first_at(bv@, colon@, 0) == Some(i as int));
                }
                lemma_first_at_bound(bv@, dash@, 0);
                lemma_first_at_bound(bv@, colon@, 0);
            }
            let head_raw: Vec<char> = crate::text::slice_chars(&bv, 0, i);
            assert(head_raw@ =~= bv@.take(i as int));
            let head_v: Vec<char> = trim_chars(&head_raw);
            let head: String = string_of(&head_v);
            assert(head_of(base@) == Some(head_v@));
            if head.as_str().as_bytes().len() >= 3 && !crate::text::chars_eq(&head_v, &bv) {
                let henc_s: String = urlencoding_encode(head.as_str());
                let henc: Vec<char> = chars_of(henc_s.as_str());
                let q: Vec<char> = q_of(&henc);
                queries.push(string_of(&q));
                assert(string_views(queries@) =~= mid + seq![q_param(url_encoded(encode_utf8(head_v@)))]);
            } else {
                assert(string_views(queries@) =~= mid + Seq::<Seq<char>>::empty());
            }
        },
        None => {
            assert(head_of(base@) is None);
            assert(string_views(queries@) =~= mid + Seq::<Seq<char>>::empty());
        },
    }
    assert(string_views(queries@) =~= planned_queries(base@, year, volume));
    Some(SearchPlan { base, year, volume, queries })
}

proof fn lemma_first_at_bound(s: Seq<char>, p: Seq<char>, from: int)
    ensures
        first_at(s, p, from) matches Some(i) ==> from <= i && occurs_at(s, p, i),
    decreases s.len() + 1 - from,
{
    if 0 <= from <= s.len() && !occurs_at(s, p, from) {
        lemma_first_at_bound(s, p, from + 1);
    }
}

/// `r` is `found` ordered from the best score to the worst, equal scores keeping
/// the order Metron gave.
pub open spec fn ranked(found: Seq<MetronCandidate>, r: Seq<MetronCandidate>, wanted: Seq<char>, year: Option<i32>, volume: Option<u32>) -> bool {
    &&& exists|p: Seq<int>| {
        &&& crate::natural::arranged(found, r, p)
        &&& forall|k: int, l: int|
            0 <= k < l < r.len() && score_of(#[trigger] r[k], wanted, year, volume) == score_of(
                #[trigger] r[l],
                wanted,
                year,
                volume,
            ) ==> p[k] < p[l]
    }
    &&& forall|k: int, l: int|
        0 <= k < l < r.len() ==> score_of(#[trigger] r[k], wanted, year, volume) >= score_of(
            #[trigger] r[l],
            wanted,
            year,
            volume,
        )
}

/// The candidates ordered from the best score to the worst; equal scores keep
/// the order Metron gave.
pub fn rank_candidates(found: Vec<MetronCandidate>, wanted: &str, year: Option<i32>, volume: Option<u32>) -> (r: Vec<MetronCandidate>)
    ensures
        ranked(found@, r@, wanted@, year, volume),
{
    let ghost orig = found@;
    let mut rest = found;
    let mut out: Vec<MetronCandidate> = Vec::new();
    let mut scores: Vec<i32> = Vec::new();
    let ghost mut p: Seq<int> = Seq::empty();
    while rest.len() > 0
        invariant
            rest@ == orig.take(rest.len() as int),
            rest.len() <= orig.len(),
            rest.len() + out.len() == orig.len(),
            scores.len() == out.len(),
            forall|k: int| 0 <= k < scores.len() ==> #[trigger] scores@[k] as int == score_of(out@[k], wanted@, year, volume),
            p.len() == out.len(),
            forall|k: int| 0 <= k < p.len() ==> rest.len() <= #[trigger] p[k] < orig.len(),
            forall|k: int, l: int| 0 <= k < l < p.len() ==> p[k] != p[l],
            forall|k: int| 0 <= k < out.len() ==> #[trigger] out@[k] == orig[p[k]],
            forall|k: int, l: int| 0 <= k < l < out.len() ==> scores@[k] >= scores@[l],
            forall|k: int, l: int| 0 <= k < l < out.len() && scores@[k] == scores@[l] ==> p[k] < p[l],
        decreases rest.len(),
    {
        let x: MetronCandidate = rest.pop().unwrap();
        let ghost idx: int = rest.len() as int;
        assert(orig.take(idx + 1).drop_last() =~= orig.take(idx));
        let sx: i32 = score(&x, wanted, year, volume);
        let mut lo: usize = 0;
        let mut hi: usize = out.len();
        while lo < hi
            invariant
                lo <= hi <= out.len(),
                scores.len() == out.len(),
                forall|k: int, l: int| 0 <= k < l < out.len() ==> scores@[k] >= scores@[l],
                forall|k: int| 0 <= k < lo ==> scores@[k] > sx,
                forall|k: int| hi <= k < out.len() ==> scores@[k] <= sx,
            decreases hi - lo,
        {
            let mid: usize = lo + (hi - lo) / 2;
            if scores[mid] > sx {
                lo = mid + 1;
            } else {
                hi = mid;
            }
        }
        let ghost old_out = out@;
        let ghost old_scores = scores@;
        let ghost old_p = p;
        out.insert(lo, x);
        scores.insert(lo, sx);
        proof {
            p = old_p.insert(lo as int, idx);
            old_out.insert_ensures(lo as int, x);
            old_p.insert_ensures(lo as int, idx);
            old_scores.insert_ensures(lo as int, sx);
            assert forall|k: int| 0 <= k < scores.len() implies #[trigger] scores@[k] as int == score_of(out@[k], wanted@, year, volume) by {
                if k > lo {
                    assert(scores@[k] == old_scores[k - 1]);
                    assert(out@[k] == old_out[k - 1]);
                }
            }
            assert forall|k: int, l: int| 0 <= k < l < out.len() implies scores@[k] >= scores@[l] by {
                if k > lo {
                    assert(scores@[k] == old_scores[k - 1]);
                }
                if l > lo {
                    assert(scores@[l] == old_scores[l - 1]);
                }
            }
            assert forall|k: int, l: int| 0 <= k < l < out.len() && scores@[k] == scores@[l] implies p[k] < p[l] by {
                if k > lo {
                    assert(scores@[k] == old_scores[k - 1]);
                }
                if l > lo {
                    assert(scores@[l] == old_scores[l - 1]);
                }
            }
        }
    }
    proof {
        assert(crate::natural::arranged(orig, out@, p));
        assert forall|k: int, l: int|
            0 <= k < l < out.len() && score_of(#[trigger] out@[k], wanted@, year, volume) == score_of(
                #[trigger] out@[l],
                wanted@,
                year,
                volume,
            ) implies p[k] < p[l] by {
            assert(scores@[k] as int == score_of(out@[k], wanted@, year, volume));
            assert(scores@[l] as int == score_of(out@[l], wanted@, year, volume));
        }
        assert forall|k: int, l: int|
            0 <= k < l < out.len() implies score_of(#[trigger] out@[k], wanted@, year, volume) >= score_of(
                #[trigger] out@[l],
                wanted@,
                year,
                volume,
            ) by {
            assert(scores@[k] as int == score_of(out@[k], wanted@, year, volume));
            assert(scores@[l] as int == score_of(out@[l], wanted@, year, volume));
        }
    }
    out
}

/// What a series search does next.
pub enum SearchAction {
    /// Stop with this error, before any request.
    Refuse(String),
    /// Send this query.
    Send(String),
    /// Stop with these candidates.
    Finish(Vec<MetronCandidate>),
}

/// Whether a search's last answer brought candidates.
pub open spec fn answered(answer: Option<Vec<MetronCandidate>>) -> bool {
    answer matches Some(f) && f@.len() > 0
}

/// One step of a series search. `has_token` tells whether an account is
/// connected; `plan` is the search's plan (`None` when there is no name to
/// search for); `sent` is how many queries have been sent, and `answer` the
/// candidates the last of them returned (`None` before the first).
///
/// Without an account the search is refused before any request. Otherwise the
/// queries of the plan go out in order until one returns candidates: those are
/// ranked and no later query is sent. When every query came back empty, or
/// there is nothing to search for, the search ends with no candidates.
pub fn search_step(has_token: bool, plan: &Option<SearchPlan>, sent: usize, answer: Option<Vec<MetronCandidate>>) -> (r: SearchAction)
    ensures
        !has_token ==> (r matches SearchAction::Refuse(e) && e@ == "no hay ninguna cuenta de Metron conectada"@),
        has_token && plan is None ==> (r matches SearchAction::Finish(v) && v@.len() == 0),
        has_token && plan is Some && answered(answer) ==> (r matches SearchAction::Finish(v) && ranked(
            answer->0@,
            v@,
            plan->0.base@,
            plan->0.year,
            plan->0.volume,
        )),
        has_token && plan is Some && !answered(answer) && sent < plan->0.queries@.len() ==> (r matches SearchAction::Send(q)
            && q@ == plan->0.queries@[sent as int]@),
        has_token && plan is Some && !answered(answer) && sent >= plan->0.queries@.len() ==> (r matches SearchAction::Finish(v)
            && v@.len() == 0),
{
    if !has_token {
        return SearchAction::Refuse(not_connected());
    }
    match plan {
        None => SearchAction::Finish(Vec::new()),
        Some(p) => {
            match answer {
                Some(found) => {
                    if found.len() > 0 {
                        return SearchAction::Finish(rank_candidates(found, p.base.as_str(), p.year, p.volume));
                    }
                },
                None => {},
            }
            if sent < p.queries.len() {
                SearchAction::Send(p.queries[sent].clone())
            } else {
                SearchAction::Finish(Vec::new())
            }
        },
    }
}

/// The name a one-click search compares with: the cleaned name, or else the
/// given name trimmed.
pub fn wanted_name(name: &str, hint_name: Option<String>) -> (r: String)
    ensures
        hint_name matches Some(n) ==> r@ == n@,
        hint_name is None ==> r@ == trim_ws(name@),
{
    match hint_name {
        Some(n) => n,
        None => {
            let v: Vec<char> = chars_of(name);
            let t: Vec<char> = trim_chars(&v);
            string_of(&t)
        },
    }
}

/// The best match of a search, when its name looks like what was sought (a
/// score of at least 10): the first candidate of the ranked list, or nothing.
/// A list that returns unrelated series is worse than finding nothing.
pub fn pick_best(found: &Vec<MetronCandidate>, wanted: &str, year: Option<i32>, volume: Option<u32>) -> (r: bool)
    ensures
        r == (found.len() > 0 && score_of(found@[0], wanted@, year, volume) >= 10),
{
    if found.len() == 0 {
        return false;
    }
    score(&found[0], wanted, year, volume) >= 10
}

/* ---------- Laws ---------- */

/// A character a query carries safely: an unreserved letter, digit or mark, the
/// `+` that stands for a space, or a part of a `%XX` escape.
pub open spec fn query_safe(c: char) -> bool {
    ('A' <= c <= 'Z') || ('a' <= c <= 'z') || ('0' <= c <= '9') || c == '-' || c == '_' || c == '.'
        || c == '~' || c == '+' || c == '%'
}

/// Whatever the user types, its encoding is made of safe characters only: no
/// `&`, `=`, `/`, `?` or `#` can add a parameter or leave the query.
pub proof fn lemma_encoding_stays_in_the_query(bs: Seq<u8>)
    ensures
        forall|i: int| 0 <= i < url_encoded(bs).len() ==> query_safe(#[trigger] url_encoded(bs)[i]),
    decreases bs.len(),
{
    if bs.len() > 0 {
        lemma_encoding_stays_in_the_query(bs.drop_last());
        let b = bs.last();
        let prev = url_encoded(bs.drop_last());
        let tail = url_byte(b);
        assert(url_encoded(bs) == prev + tail);
        assert forall|k: int| 0 <= k < tail.len() implies query_safe(#[trigger] tail[k]) by {
            if is_unreserved(b) {
                assert(tail[k] == b as char);
            } else if b != 0x20 && k > 0 {
                assert((b / 16) < 16 && (b % 16) < 16);
            }
        }
        assert forall|i: int| 0 <= i < url_encoded(bs).len() implies query_safe(#[trigger] url_encoded(bs)[i]) by {
            if i < prev.len() {
                assert(url_encoded(bs)[i] == prev[i]);
            } else {
                assert(url_encoded(bs)[i] == tail[i - prev.len()]);
            }
        }
    }
}

/// Encoding works byte by byte: the encoding of two pieces put together is the
/// two encodings put together, so each byte is written as `url_byte` says (an
/// unreserved byte as itself, a space as `+`, any other as `%` and two upper-case
/// hex digits).
pub proof fn lemma_encoding_by_bytes(a: Seq<u8>, b: Seq<u8>)
    ensures
        url_encoded(a + b) == url_encoded(a) + url_encoded(b),
    decreases b.len(),
{
    if b.len() == 0 {
        assert(a + b =~= a);
        assert(url_encoded(a) + url_encoded(b) =~= url_encoded(a));
    } else {
        lemma_encoding_by_bytes(a, b.drop_last());
        assert((a + b).drop_last() =~= a + b.drop_last());
        assert((a + b).last() == b.last());
        assert(url_encoded(a + b) =~= url_encoded(a) + url_encoded(b.drop_last()) + url_byte(b.last()));
    }
}

/// The value of an upper-case hex digit.
pub open spec fn hex_value(c: char) -> int {
    if '0' <= c <= '9' {
        c as int - '0' as int
    } else if 'A' <= c <= 'F' {
        c as int - 'A' as int + 10
    } else {
        0
    }
}

/// Form decoding of a query value: `+` is a space, `%XY` the byte `0xXY`, any
/// other character the byte of its code.
pub open spec fn form_decoded(cs: Seq<char>) -> Seq<u8>
    decreases cs.len(),
{
    if cs.len() == 0 {
        Seq::empty()
    } else if cs[0] == '+' {
        seq![0x20u8] + form_decoded(cs.drop_first())
    } else if cs[0] == '%' && cs.len() >= 3 {
        seq![(hex_value(cs[1]) * 16 + hex_value(cs[2])) as u8] + form_decoded(cs.skip(3))
    } else {
        seq![(cs[0] as int) as u8] + form_decoded(cs.drop_first())
    }
}

proof fn lemma_hex_round_trip(d: nat)
    requires
        d < 16,
    ensures
        hex_value(hex_upper(d)) == d,
{
}

proof fn lemma_decode_byte(b: u8, rest: Seq<char>)
    ensures
        form_decoded(url_byte(b) + rest) == seq![b] + form_decoded(rest),
{
    let cs = url_byte(b) + rest;
    if is_unreserved(b) {
        assert(cs[0] == b as char);
        assert((b as char) as int == b as int);
        assert(cs.drop_first() =~= rest);
    } else if b == 0x20 {
        assert(cs[0] == '+');
        assert(cs.drop_first() =~= rest);
    } else {
        lemma_hex_round_trip((b / 16) as nat);
        lemma_hex_round_trip((b % 16) as nat);
        assert(cs[0] == '%' && cs[1] == hex_upper((b / 16) as nat) && cs[2] == hex_upper((b % 16) as nat));
        assert(cs.skip(3) =~= rest);
        assert((b / 16) * 16 + b % 16 == b);
    }
}

/// Decoding a query value gives back exactly the bytes that were encoded.
pub proof fn lemma_encoding_round_trip(bs: Seq<u8>)
    ensures
        form_decoded(url_encoded(bs)) == bs,
    decreases bs.len(),
{
    if bs.len() > 0 {
        let head = seq![bs[0]];
        let tail = bs.drop_first();
        assert(bs =~= head + tail);
        lemma_encoding_by_bytes(head, tail);
        assert(head.drop_last() =~= Seq::<u8>::empty());
        assert(head.last() == bs[0]);
        assert(url_encoded(head.drop_last()) =~= Seq::<char>::empty());
        assert(url_encoded(head) =~= url_byte(bs[0]));
        lemma_decode_byte(bs[0], url_encoded(tail));
        lemma_encoding_round_trip(tail);
    }
}

/// Folding works character by character: a name folds to the folds of its
/// parts, so punctuation between words only ever drops out.
pub proof fn lemma_fold_concat(a: Seq<char>, b: Seq<char>)
    ensures
        folded(a + b) == folded(a) + folded(b),
    decreases b.len(),
{
    if b.len() == 0 {
        assert(a + b =~= a);
        assert(folded(a) + folded(b) =~= folded(a));
    } else {
        lemma_fold_concat(a, b.drop_last());
        assert((a + b).drop_last() =~= a + b.drop_last());
        assert((a + b).last() == b.last());
        assert(folded(a + b) =~= folded(a) + folded(b.drop_last()) + fold_lowered(lower_of(b.last())));
    }
}

proof fn lemma_fold_lowered_alphanumeric(cs: Seq<char>)
    ensures
        forall|i: int| 0 <= i < fold_lowered(cs).len() ==> alnum_of(#[trigger] fold_lowered(cs)[i]),
    decreases cs.len(),
{
    if cs.len() > 0 {
        lemma_fold_lowered_alphanumeric(cs.drop_last());
        let prev = fold_lowered(cs.drop_last());
        if alnum_of(unaccent(cs.last())) {
            assert forall|i: int| 0 <= i < fold_lowered(cs).len() implies alnum_of(#[trigger] fold_lowered(cs)[i]) by {
                if i < prev.len() {
                    assert(fold_lowered(cs)[i] == prev[i]);
                }
            }
        }
    }
}

/// A folded name holds letters and digits only.
pub proof fn lemma_folded_is_alphanumeric(s: Seq<char>)
    ensures
        forall|i: int| 0 <= i < folded(s).len() ==> alnum_of(#[trigger] folded(s)[i]),
    decreases s.len(),
{
    if s.len() > 0 {
        lemma_folded_is_alphanumeric(s.drop_last());
        let prev = folded(s.drop_last());
        let tail = fold_lowered(lower_of(s.last()));
        lemma_fold_lowered_alphanumeric(lower_of(s.last()));
        assert forall|i: int| 0 <= i < folded(s).len() implies alnum_of(#[trigger] folded(s)[i]) by {
            if i < prev.len() {
                assert(folded(s)[i] == prev[i]);
            } else {
                assert(folded(s)[i] == tail[i - prev.len()]);
            }
        }
    }
}

/// ASCII punctuation and whitespace: ASCII characters other than letters and digits.
pub open spec fn is_ascii_punct(c: char) -> bool {
    is_ascii_char(c) && !is_ascii_alnum(c)
}

proof fn lemma_fold_of_punctuation(x: Seq<char>)
    requires
        forall|i: int| 0 <= i < x.len() ==> is_ascii_punct(#[trigger] x[i]),
    ensures
        folded(x) == Seq::<char>::empty(),
    decreases x.len(),
{
    if x.len() > 0 {
        lemma_fold_of_punctuation(x.drop_last());
        let c = x.last();
        assert(is_ascii_punct(x[x.len() - 1]));
        assert(fold_lowered(seq![c].drop_last()) =~= Seq::<char>::empty());
        assert(folded(x) =~= Seq::<char>::empty());
    }
}

/// Punctuation and spaces do not count: putting any run of ASCII punctuation or
/// whitespace into a name leaves its fold unchanged (`Spider-Man`, `Spider Man`
/// and `Spiderman` fold alike).
pub proof fn lemma_fold_ignores_punctuation(a: Seq<char>, x: Seq<char>, b: Seq<char>)
    requires
        forall|i: int| 0 <= i < x.len() ==> is_ascii_punct(#[trigger] x[i]),
    ensures
        folded(a + x + b) == folded(a + b),
{
    lemma_fold_of_punctuation(x);
    lemma_fold_concat(a, x);
    lemma_fold_concat(a + x, b);
    lemma_fold_concat(a, b);
    assert(folded(a) + Seq::<char>::empty() =~= folded(a));
}

/// A name with its ASCII letters in upper case.
pub open spec fn ascii_uppercased(s: Seq<char>) -> Seq<char> {
    s.map_values(|c: char| ascii_upper(c))
}

/// Case does not count: a name folds like its ASCII upper-case form.
pub proof fn lemma_fold_ignores_case(s: Seq<char>)
    ensures
        folded(ascii_uppercased(s)) == folded(s),
    decreases s.len(),
{
    if s.len() > 0 {
        lemma_fold_ignores_case(s.drop_last());
        let c = s.last();
        let u = ascii_upper(c);
        assert(ascii_uppercased(s).drop_last() =~= ascii_uppercased(s.drop_last()));
        assert(ascii_uppercased(s).last() == u);
        if 'a' <= c <= 'z' {
            assert((u as int) == (c as int) - 32);
            assert(lower_of(u) == lower_of(c));
        }
    }
}

/// Accents do not count: putting an accented letter of `unaccent` in place of its
/// bare letter leaves the fold unchanged (`Astérix` and `Asterix` fold alike).
pub proof fn lemma_fold_ignores_accents(a: Seq<char>, c: char, b: Seq<char>)
    requires
        unaccent(c) != c,
    ensures
        folded(a + seq![c] + b) == folded(a + seq![unaccent(c)] + b),
{
    let u = unaccent(c);
    assert(is_ascii_char(u) && 'a' <= u <= 'z');
    assert(seq![c].drop_last() =~= Seq::<char>::empty());
    assert(seq![u].drop_last() =~= Seq::<char>::empty());
    assert(lower_of(c) == seq![c]);
    assert(lower_of(u) == seq![u]);
    assert(unaccent(u) == u);
    assert(alnum_of(u));
    assert(seq![c].last() == c && seq![u].last() == u);
    assert(fold_lowered(Seq::<char>::empty()) =~= Seq::<char>::empty());
    assert(fold_lowered(seq![c]) =~= seq![u]);
    assert(fold_lowered(seq![u]) =~= seq![u]);
    assert(folded(seq![c]) =~= folded(Seq::<char>::empty()) + fold_lowered(lower_of(c)));
    assert(folded(seq![u]) =~= folded(Seq::<char>::empty()) + fold_lowered(lower_of(u)));
    lemma_fold_concat(a, seq![c]);
    lemma_fold_concat(a + seq![c], b);
    lemma_fold_concat(a, seq![u]);
    lemma_fold_concat(a + seq![u], b);
}

/// Whether a candidate's name, without what follows a `(`, is the name sought
/// once both are folded.
pub open spec fn exact_name(c: MetronCandidate, wanted: Seq<char>) -> bool {
    folded(before_first(c.name@, '(')) == folded(wanted)
}

/// Between two candidates that agree on year, volume and whether the issue
/// count is known, the one whose name is exactly the one sought scores higher:
/// a longer name that merely contains it never wins.
pub proof fn lemma_exact_name_wins(a: MetronCandidate, b: MetronCandidate, wanted: Seq<char>, year: Option<i32>, volume: Option<u32>)
    requires
        exact_name(a, wanted),
        !exact_name(b, wanted),
        a.year_began == b.year_began,
        a.volume == b.volume,
        a.issue_count is Some <==> b.issue_count is Some,
    ensures
        score_of(a, wanted, year, volume) > score_of(b, wanted, year, volume),
{
}

} // verus!

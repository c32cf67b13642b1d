//! Comic metadata: the `ComicInfo.xml` file that many releases carry inside
//! the archive, issue numbers, and series and number read from a file name
//! when there is no metadata.

use vstd::prelude::*;
use quick_xml::events::Event;
use vstd::utf8::{decode_utf8, valid_utf8};
use crate::text::{
    all_digits, chars_of, digit_run, digits_u64, digits_value, exec_is_ws, is_digit, is_ws,
    lemma_digit_run, lemma_digit_run_bounds, lowercase, parse_i32, parse_signed, string_of,
    to_lower, trim_chars, trim_ws,
};

verus! {

/// The view of an optional string.
pub open spec fn opt_view(o: Option<String>) -> Option<Seq<char>> {
    match o {
        Some(s) => Some(s@),
        None => None,
    }
}

/// The subset of ComicInfo.xml that the application uses. The standard has more
/// fields; these are the ones shown or used to tell whether a series is complete.
pub struct ComicInfoXml {
    pub series: Option<String>,
    pub number: Option<String>,
    /// Total number of issues of the series: what makes "you have 12 of 24"
    /// possible without asking any outside database.
    pub count: Option<i32>,
    pub volume: Option<i32>,
    pub title: Option<String>,
    pub publisher: Option<String>,
    pub year: Option<i32>,
    pub writer: Option<String>,
    pub summary: Option<String>,
    pub language_iso: Option<String>,
    /// `Yes`, `YesAndRightToLeft`, `No`...: whether it reads right to left.
    pub manga: Option<String>,
}

impl ComicInfoXml {
    /// All fields empty.
    pub fn empty() -> (r: ComicInfoXml)
        ensures
            r.series is None && r.number is None && r.count is None && r.volume is None,
            r.title is None && r.publisher is None && r.year is None && r.writer is None,
            r.summary is None && r.language_iso is None && r.manga is None,
    {
        ComicInfoXml {
            series: None,
            number: None,
            count: None,
            volume: None,
            title: None,
            publisher: None,
            year: None,
            writer: None,
            summary: None,
            language_iso: None,
            manga: None,
        }
    }
}

impl Default for ComicInfoXml {
    fn default() -> (r: ComicInfoXml)
        ensures
            r.series is None && r.number is None && r.count is None && r.volume is None,
            r.title is None && r.publisher is None && r.year is None && r.writer is None,
            r.summary is None && r.language_iso is None && r.manga is None,
    {
        ComicInfoXml::empty()
    }
}

/* ---------- Issue numbers ---------- */

/// The leading digits of the trimmed text, as a `u32`, if there are any and they fit.
pub open spec fn issue_number_of(raw: Seq<char>) -> Option<u32> {
    let t = trim_ws(raw);
    let d = t.take(digit_run(t) as int);
    if d.len() == 0 || digits_value(d) > u32::MAX {
        None
    } else {
        Some(digits_value(d) as u32)
    }
}

/// The leading ASCII digits of `v`, as a `u32` if there are any and they fit.
fn leading_u32(v: &Vec<char>) -> (r: Option<u32>)
    ensures
        r == (if digit_run(v@) == 0 || digits_value(v@.take(digit_run(v@) as int)) > u32::MAX {
            None::<u32>
        } else {
            Some(digits_value(v@.take(digit_run(v@) as int)) as u32)
        }),
{
    let mut e: usize = 0;
    while e < v.len() && '0' <= v[e] && v[e] <= '9'
        invariant
            e <= v.len(),
            forall|k: int| 0 <= k < e ==> is_digit(v@[k]),
        decreases v.len() - e,
    {
        e = e + 1;
    }
    proof {
        lemma_digit_run(v@, e as int);
        assert(v@.subrange(0, e as int) =~= v@.take(e as int));
        assert forall|k: int| 0 <= k < e implies is_digit(#[trigger] v@.take(e as int)[k]) by {
        }
    }
    if e == 0 {
        return None;
    }
    match digits_u64(v, 0, e) {
        Some(n) => if n <= 0xffff_ffff {
            Some(n as u32)
        } else {
            None
        },
        None => None,
    }
}

/// Issue number as an integer, to sort and find gaps. Accepts the usual
/// shapes: `7`, `007`, `7a`, `7.5` (keeps the 7).
pub fn issue_number(raw: &str) -> (r: Option<u32>)
    ensures
        r == issue_number_of(raw@),
{
    let v: Vec<char> = chars_of(raw);
    let t: Vec<char> = trim_chars(&v);
    proof {
        lemma_digit_run_bounds(t@);
    }
    leading_u32(&t)
}

/* ---------- Series and number from a file name ---------- */

/// Series and number guessed from a file name.
///
/// A stopgap, not a reliable source: used only when the comic carries no
/// `ComicInfo.xml`.
pub struct NameGuess {
    pub series: Option<String>,
    pub number: Option<u32>,
}

pub open spec fn is_open(c: char) -> bool {
    c == '(' || c == '[' || c == '{'
}

pub open spec fn is_close(c: char) -> bool {
    c == ')' || c == ']' || c == '}'
}

/// The characters of `s` that stand outside brackets, starting at nesting `depth`.
/// A closing bracket never takes the depth below zero.
pub open spec fn strip_groups(s: Seq<char>, depth: nat) -> Seq<char>
    decreases s.len(),
{
    if s.len() == 0 {
        Seq::empty()
    } else if is_open(s[0]) {
        strip_groups(s.drop_first(), depth + 1)
    } else if is_close(s[0]) {
        strip_groups(
            s.drop_first(),
            if depth > 0 {
                (depth - 1) as nat
            } else {
                0
            },
        )
    } else if depth == 0 {
        seq![s[0]] + strip_groups(s.drop_first(), 0)
    } else {
        strip_groups(s.drop_first(), depth)
    }
}

/// Token separators: whitespace and `_`.
pub open spec fn is_sep(c: char) -> bool {
    is_ws(c) || c == '_'
}

/// Length of the run of non-separators at the start of `s`.
pub open spec fn word_len(s: Seq<char>) -> nat
    decreases s.len(),
{
    if s.len() > 0 && !is_sep(s[0]) {
        1 + word_len(s.drop_first())
    } else {
        0
    }
}

proof fn lemma_word_len(s: Seq<char>, n: int)
    requires
        0 <= n <= s.len(),
        forall|k: int| 0 <= k < n ==> !is_sep(s[k]),
        n == s.len() || is_sep(s[n]),
    ensures
        word_len(s) == n,
    decreases n,
{
    if n > 0 {
        assert forall|k: int| 0 <= k < n - 1 implies !is_sep(s.drop_first()[k]) by {
            assert(s.drop_first()[k] == s[k + 1]);
        }
        if n < s.len() {
            assert(s.drop_first()[n - 1] == s[n]);
        }
        lemma_word_len(s.drop_first(), n - 1);
    }
}

pub proof fn lemma_word_len_bound(s: Seq<char>)
    ensures
        word_len(s) <= s.len(),
    decreases s.len(),
{
    if s.len() > 0 && !is_sep(s[0]) {
        lemma_word_len_bound(s.drop_first());
    }
}

/// The non-empty pieces of `s` between separators, in order.
pub open spec fn tokens(s: Seq<char>) -> Seq<Seq<char>>
    decreases s.len(),
{
    if s.len() == 0 {
        Seq::empty()
    } else if is_sep(s[0]) {
        tokens(s.drop_first())
    } else {
        proof {
            lemma_word_len_bound(s);
        }
        seq![s.take(word_len(s) as int)] + tokens(s.skip(word_len(s) as int))
    }
}

/// `s` without its leading run of `c` (`trim_start_matches(c)`).
pub open spec fn skip_char(s: Seq<char>, c: char) -> Seq<char>
    decreases s.len(),
{
    if s.len() > 0 && s[0] == c {
        skip_char(s.drop_first(), c)
    } else {
        s
    }
}

pub open spec fn vol() -> Seq<char> {
    seq!['v', 'o', 'l']
}

/// `s` without its leading repetitions of `vol` (`trim_start_matches("vol")`).
pub open spec fn skip_vol(s: Seq<char>) -> Seq<char>
    decreases s.len(),
{
    if s.len() >= 3 && s.take(3) == vol() {
        skip_vol(s.skip(3))
    } else {
        s
    }
}

/// A volume marker such as `v01` or `vol.2`, given in lower case.
pub open spec fn is_volume_marker(lower: Seq<char>) -> bool {
    lower.len() > 0 && lower[0] == 'v' && all_digits(skip_char(skip_char(skip_vol(lower), 'v'), '.'))
}

/// Four digits between 1900 and 2100 read as a year.
pub open spec fn is_year(n: int, digits: int) -> bool {
    digits == 4 && 1900 <= n <= 2100
}

/// The issue number a token stands for, if any: a leading run of digits (after
/// any `#`) that fits in a `u32`, is not a year and is not part of a volume marker.
pub open spec fn token_number(t: Seq<char>) -> Option<u32> {
    let u = skip_char(t, '#');
    let d = u.take(digit_run(u) as int);
    if is_volume_marker(lowercase(u)) {
        None
    } else if d.len() == 0 || digits_value(d) > u32::MAX || is_year(
        digits_value(d) as int,
        d.len() as int,
    ) {
        None
    } else {
        Some(digits_value(d) as u32)
    }
}

/// Index of the last token that carries a number.
pub open spec fn last_numbered(toks: Seq<Seq<char>>) -> Option<int>
    decreases toks.len(),
{
    if toks.len() == 0 {
        None
    } else if token_number(toks.last()) is Some {
        Some(toks.len() - 1)
    } else {
        last_numbered(toks.drop_last())
    }
}

/// The tokens joined with single spaces.
pub open spec fn join_spaced(toks: Seq<Seq<char>>) -> Seq<char>
    decreases toks.len(),
{
    if toks.len() == 0 {
        Seq::empty()
    } else if toks.len() == 1 {
        toks[0]
    } else {
        join_spaced(toks.drop_last()) + seq![' '] + toks.last()
    }
}

/// Characters trimmed from the end of a series name: `-`, en and em dash, `.`, `,`.
pub open spec fn is_trailer(c: char) -> bool {
    c == '-' || c == '\u{2013}' || c == '\u{2014}' || c == '.' || c == ','
}

pub open spec fn trim_trailers(s: Seq<char>) -> Seq<char>
    decreases s.len(),
{
    if s.len() > 0 && is_trailer(s.last()) {
        trim_trailers(s.drop_last())
    } else {
        s
    }
}

/// The series name in front of the numbered token at `at`.
pub open spec fn series_before(toks: Seq<Seq<char>>, at: int) -> Option<Seq<char>> {
    let name = trim_ws(trim_trailers(trim_ws(join_spaced(toks.take(at)))));
    if at == 0 || name.len() == 0 {
        None
    } else {
        Some(name)
    }
}

pub open spec fn stem_tokens(stem: Seq<char>) -> Seq<Seq<char>> {
    tokens(strip_groups(stem, 0))
}

/// The number guessed from a file stem.
pub open spec fn guessed_number(stem: Seq<char>) -> Option<u32> {
    match last_numbered(stem_tokens(stem)) {
        Some(i) => token_number(stem_tokens(stem)[i]),
        None => None,
    }
}

/// The series guessed from a file stem.
pub open spec fn guessed_series(stem: Seq<char>) -> Option<Seq<char>> {
    match last_numbered(stem_tokens(stem)) {
        Some(i) => series_before(stem_tokens(stem), i),
        None => None,
    }
}

fn is_open_exec(c: char) -> (r: bool)
    ensures
        r == is_open(c),
{
    c == '(' || c == '[' || c == '{'
}

fn is_close_exec(c: char) -> (r: bool)
    ensures
        r == is_close(c),
{
    c == ')' || c == ']' || c == '}'
}

/// Step 1: drop what stands inside brackets.
fn strip_groups_exec(s: &Vec<char>) -> (r: Vec<char>)
    ensures
        r@ == strip_groups(s@, 0),
{
    let mut out: Vec<char> = Vec::new();
    let mut depth: usize = 0;
    let mut i: usize = 0;
    assert(s@.skip(0) =~= s@);
    while i < s.len()
        invariant
            i <= s.len(),
            depth <= i,
            strip_groups(s@, 0) == out@ + strip_groups(s@.skip(i as int), depth as nat),
        decreases s.len() - i,
    {
        let c: char = s[i];
        let ghost rest = s@.skip(i as int);
        assert(rest[0] == c);
        assert(rest.drop_first() =~= s@.skip(i + 1));
        if is_open_exec(c) {
            depth = depth + 1;
        } else if is_close_exec(c) {
            if depth > 0 {
                depth = depth - 1;
            }
        } else if depth == 0 {
            out.push(c);
            assert(out@ + strip_groups(s@.skip(i + 1), 0) =~= old_out_plus(out@, c, s@, i));
        }
        i = i + 1;
    }
    assert(s@.skip(i as int) =~= Seq::<char>::empty());
    assert(out@ + Seq::<char>::empty() =~= out@);
    out
}

spec fn old_out_plus(out: Seq<char>, c: char, s: Seq<char>, i: usize) -> Seq<char> {
    out.drop_last() + (seq![c] + strip_groups(s.skip(i + 1), 0))
}

fn is_sep_exec(c: char) -> (r: bool)
    ensures
        r == is_sep(c),
{
    exec_is_ws(c) || c == '_'
}

/// The views of a vector of character vectors.
pub open spec fn views(v: Seq<Vec<char>>) -> Seq<Seq<char>> {
    v.map_values(|t: Vec<char>| t@)
}

/// Step 2: split into tokens at whitespace and `_`.
fn split_tokens(s: &Vec<char>) -> (r: Vec<Vec<char>>)
    ensures
        views(r@) == tokens(s@),
{
    let mut out: Vec<Vec<char>> = Vec::new();
    let mut i: usize = 0;
    assert(s@.skip(0) =~= s@);
    assert(views(out@) =~= Seq::<Seq<char>>::empty());
    while i < s.len()
        invariant
            i <= s.len(),
            tokens(s@) == views(out@) + tokens(s@.skip(i as int)),
        decreases s.len() - i,
    {
        let ghost rest = s@.skip(i as int);
        if is_sep_exec(s[i]) {
            assert(rest[0] == s@[i as int]);
            assert(rest.drop_first() =~= s@.skip(i + 1));
            i = i + 1;
        } else {
            let mut j: usize = i;
            while j < s.len() && !is_sep_exec(s[j])
                invariant
                    i <= j <= s.len(),
                    forall|k: int| i <= k < j ==> !is_sep(s@[k]),
                decreases s.len() - j,
            {
                j = j + 1;
            }
            proof {
                assert forall|k: int| 0 <= k < j - i implies !is_sep(rest[k]) by {
                    assert(rest[k] == s@[k + i]);
                }
                if j < s.len() {
                    assert(rest[j - i] == s@[j as int]);
                }
                lemma_word_len(rest, j - i);
                assert(rest[0] == s@[i as int]);
                assert(rest.take(j - i) =~= s@.subrange(i as int, j as int));
                assert(rest.skip(j - i) =~= s@.skip(j as int));
            }
            let tok: Vec<char> = crate::text::slice_chars(s, i, j);
            let ghost before = views(out@);
            out.push(tok);
            assert(views(out@) =~= before.push(tok@));
            assert(views(out@) + tokens(s@.skip(j as int)) =~= before + (seq![rest.take(j - i)]
                + tokens(rest.skip(j - i))));
            i = j;
        }
    }
    assert(s@.skip(i as int) =~= Seq::<char>::empty());
    assert(views(out@) + Seq::<Seq<char>>::empty() =~= views(out@));
    out
}

/// Index of the first character of `v` from `i` on that is not `c`.
fn skip_char_exec(v: &Vec<char>, i: usize, c: char) -> (r: usize)
    requires
        i <= v.len(),
    ensures
        i <= r <= v.len(),
        skip_char(v@.skip(i as int), c) == v@.skip(r as int),
{
    let mut r: usize = i;
    while r < v.len() && v[r] == c
        invariant
            i <= r <= v.len(),
            skip_char(v@.skip(i as int), c) == skip_char(v@.skip(r as int), c),
        decreases v.len() - r,
    {
        assert(v@.skip(r as int).drop_first() =~= v@.skip(r + 1));
        r = r + 1;
    }
    if r < v.len() {
        assert(v@.skip(r as int)[0] == v@[r as int]);
    }
    r
}

/// Whether `v`, in lower case, is a volume marker.
fn volume_marker_exec(lower: &Vec<char>) -> (r: bool)
    ensures
        r == is_volume_marker(lower@),
{
    if lower.len() == 0 || lower[0] != 'v' {
        return false;
    }
    let mut p: usize = 0;
    assert(lower@.skip(0) =~= lower@);
    while p < lower.len() && lower.len() - p >= 3 && lower[p] == 'v' && lower[p + 1] == 'o' && lower[p + 2] == 'l'
        invariant
            p <= lower.len(),
            skip_vol(lower@) == skip_vol(lower@.skip(p as int)),
        decreases lower.len() - p,
    {
        assert(lower@.skip(p as int).take(3) =~= vol());
        assert(lower@.skip(p as int).skip(3) =~= lower@.skip(p + 3));
        p = p + 3;
    }
    proof {
        let t = lower@.skip(p as int);
        if t.len() >= 3 && t.take(3) == vol() {
            assert(t.take(3)[0] == lower@[p as int]);
            assert(t.take(3)[1] == lower@[p + 1]);
            assert(t.take(3)[2] == lower@[p + 2]);
        }
        assert(skip_vol(t) == t);
    }
    let q: usize = skip_char_exec(lower, p, 'v');
    let e: usize = skip_char_exec(lower, q, '.');
    assert(skip_char(skip_char(skip_vol(lower@), 'v'), '.') == lower@.skip(e as int));
    let mut k: usize = e;
    while k < lower.len()
        invariant
            e <= k <= lower.len(),
            forall|m: int| e <= m < k ==> is_digit(lower@[m]),
            lower@.len() > 0 && lower@[0] == 'v',
            skip_char(skip_char(skip_vol(lower@), 'v'), '.') == lower@.skip(e as int),
        decreases lower.len() - k,
    {
        if !('0' <= lower[k] && lower[k] <= '9') {
            assert(lower@.skip(e as int)[k - e] == lower@[k as int]);
            assert(!is_digit(lower@.skip(e as int)[k - e]));
            assert(!all_digits(lower@.skip(e as int)));
            return false;
        }
        k = k + 1;
    }
    assert forall|m: int| 0 <= m < lower@.skip(e as int).len() implies is_digit(
        #[trigger] lower@.skip(e as int)[m],
    ) by {
        assert(lower@.skip(e as int)[m] == lower@[m + e]);
    }
    true
}

/// Whether the number `n`, written with `digits` digits, looks like a year.
pub fn looks_like_year(n: u32, digits: usize) -> (r: bool)
    ensures
        r == is_year(n as int, digits as int),
{
    digits == 4 && 1900 <= n && n <= 2100
}

/// Steps 2 and 3 for one token: its issue number, if it has one.
fn token_number_exec(t: &Vec<char>) -> (r: Option<u32>)
    ensures
        r == token_number(t@),
{
    let h: usize = skip_char_exec(t, 0, '#');
    assert(t@.skip(0) =~= t@);
    let u: Vec<char> = crate::text::slice_chars(t, h, t.len());
    assert(u@ =~= t@.skip(h as int));
    let us: String = string_of(&u);
    let lower_s: String = to_lower(us.as_str());
    let lower: Vec<char> = chars_of(lower_s.as_str());
    if volume_marker_exec(&lower) {
        return None;
    }
    let mut e: usize = 0;
    while e < u.len() && '0' <= u[e] && u[e] <= '9'
        invariant
            e <= u.len(),
            forall|k: int| 0 <= k < e ==> is_digit(u@[k]),
        decreases u.len() - e,
    {
        e = e + 1;
    }
    proof {
        lemma_digit_run(u@, e as int);
        assert(u@.subrange(0, e as int) =~= u@.take(e as int));
        assert forall|k: int| 0 <= k < e implies is_digit(#[trigger] u@.take(e as int)[k]) by {
        }
    }
    if e == 0 {
        return None;
    }
    let n: u32 = match digits_u64(&u, 0, e) {
        Some(n) => if n <= 0xffff_ffff {
            n as u32
        } else {
            return None;
        },
        None => {
            return None;
        },
    };
    if looks_like_year(n, e) {
        return None;
    }
    Some(n)
}

proof fn lemma_last_numbered_step(toks: Seq<Seq<char>>, i: int)
    requires
        0 <= i < toks.len(),
    ensures
        last_numbered(toks.take(i + 1)) == (if token_number(toks[i]) is Some {
            Some(i)
        } else {
            last_numbered(toks.take(i))
        }),
{
    assert(toks.take(i + 1).drop_last() =~= toks.take(i));
    assert(toks.take(i + 1).last() == toks[i]);
}

proof fn lemma_last_numbered_bound(toks: Seq<Seq<char>>)
    ensures
        last_numbered(toks) matches Some(i) ==> 0 <= i < toks.len() && token_number(toks[i]) is Some,
    decreases toks.len(),
{
    if toks.len() > 0 && token_number(toks.last()) is None {
        lemma_last_numbered_bound(toks.drop_last());
    }
}

fn is_trailer_exec(c: char) -> (r: bool)
    ensures
        r == is_trailer(c),
{
    c == '-' || c == '\u{2013}' || c == '\u{2014}' || c == '.' || c == ','
}

fn trim_trailers_exec(v: &Vec<char>) -> (r: Vec<char>)
    ensures
        r@ == trim_trailers(v@),
{
    let mut j: usize = v.len();
    assert(v@.take(j as int) =~= v@);
    while j > 0 && is_trailer_exec(v[j - 1])
        invariant
            j <= v.len(),
            trim_trailers(v@) == trim_trailers(v@.take(j as int)),
        decreases j,
    {
        assert(v@.take(j as int).drop_last() =~= v@.take(j - 1));
        j = j - 1;
    }
    if j > 0 {
        assert(v@.take(j as int).last() == v@[j - 1]);
    }
    assert(v@.subrange(0, j as int) =~= v@.take(j as int));
    crate::text::slice_chars(v, 0, j)
}

/// Step 4: the series, joined from the tokens in front of the number.
fn series_exec(toks: &Vec<Vec<char>>, at: usize) -> (r: Option<String>)
    requires
        at <= toks.len(),
    ensures
        opt_view(r) == series_before(views(toks@), at as int),
{
    let ghost tv = views(toks@);
    let mut joined: Vec<char> = Vec::new();
    let mut k: usize = 0;
    assert(tv.take(0) =~= Seq::<Seq<char>>::empty());
    while k < at
        invariant
            k <= at <= toks.len(),
            tv == views(toks@),
            joined@ == join_spaced(tv.take(k as int)),
        decreases at - k,
    {
        let ghost before = joined@;
        if k > 0 {
            joined.push(' ');
        }
        crate::text::extend_chars(&mut joined, &toks[k]);
        proof {
            assert(tv.take(k + 1).drop_last() =~= tv.take(k as int));
            assert(tv.take(k + 1).last() == toks@[k as int]@);
            if k == 0 {
                assert(tv.take(1)[0] == toks@[0]@);
                assert(joined@ =~= tv.take(1)[0]);
            } else {
                assert(joined@ =~= before + seq![' '] + toks@[k as int]@);
            }
        }
        k = k + 1;
    }
    let t1: Vec<char> = trim_chars(&joined);
    let t2: Vec<char> = trim_trailers_exec(&t1);
    let t3: Vec<char> = trim_chars(&t2);
    if at == 0 || t3.len() == 0 {
        None
    } else {
        Some(string_of(&t3))
    }
}

/// Guesses series and number from something like `Saga 003 (2013)`.
///
/// Rules, in this order:
/// 1. What stands in brackets is dropped: years, `[Digital]`, etc.
/// 2. Volume markers (`v01`, `Vol.2`) are ignored: they are not the number.
/// 3. The number is the last loose number that does not look like a year.
/// 4. The series is what stands in front of it.
pub fn guess_from_filename(stem: &str) -> (g: NameGuess)
    ensures
        g.number == guessed_number(stem@),
        opt_view(g.series) == guessed_series(stem@),
        g.number matches Some(n) ==> exists|i: int|
            0 <= i < stem_tokens(stem@).len() && n == digits_value(number_digits(#[trigger] stem_tokens(stem@)[i]))
                && !reads_as_year(number_digits(stem_tokens(stem@)[i])),
{
    proof {
        lemma_guessed_number_is_no_year(stem@);
    }
    let s: Vec<char> = chars_of(stem);
    let cleaned: Vec<char> = strip_groups_exec(&s);
    let toks: Vec<Vec<char>> = split_tokens(&cleaned);
    let ghost tv = views(toks@);
    let mut number: Option<u32> = None;
    let mut at: usize = 0;
    let mut found: bool = false;
    let mut i: usize = 0;
    assert(tv.take(0) =~= Seq::<Seq<char>>::empty());
    while i < toks.len()
        invariant
            i <= toks.len(),
            tv == views(toks@),
            tv.len() == toks.len(),
            found ==> at < i,
            found ==> last_numbered(tv.take(i as int)) == Some(at as int),
            !found ==> last_numbered(tv.take(i as int)) is None,
            found ==> number == token_number(tv[at as int]),
            !found ==> number is None,
        decreases toks.len() - i,
    {
        let r: Option<u32> = token_number_exec(&toks[i]);
        proof {
            lemma_last_numbered_step(tv, i as int);
        }
        match r {
            Some(n) => {
                number = Some(n);
                at = i;
                found = true;
            },
            None => {},
        }
        i = i + 1;
    }
    assert(tv.take(i as int) =~= tv);
    let series: Option<String> = if !found || at == 0 {
        None
    } else {
        series_exec(&toks, at)
    };
    NameGuess { series, number }
}

/* ---------- Laws of the guess ---------- */

pub open spec fn no_brackets(s: Seq<char>) -> bool {
    forall|i: int| 0 <= i < s.len() ==> !is_open(#[trigger] s[i]) && !is_close(s[i])
}

proof fn lemma_strip_plain_prefix(a: Seq<char>, rest: Seq<char>)
    requires
        no_brackets(a),
    ensures
        strip_groups(a + rest, 0) == a + strip_groups(rest, 0),
    decreases a.len(),
{
    if a.len() > 0 {
        let t = a.drop_first();
        assert(no_brackets(t)) by {
            assert forall|i: int| 0 <= i < t.len() implies !is_open(#[trigger] t[i]) && !is_close(t[i]) by {
                assert(t[i] == a[i + 1]);
            }
        }
        assert(!is_open(a[0]) && !is_close(a[0]));
        lemma_strip_plain_prefix(t, rest);
        assert((a + rest)[0] == a[0]);
        assert((a + rest).drop_first() =~= t + rest);
        assert(a =~= seq![a[0]] + t);
    }
}

proof fn lemma_strip_inside_group(x: Seq<char>, rest: Seq<char>, depth: nat)
    requires
        no_brackets(x),
        depth > 0,
    ensures
        strip_groups(x + rest, depth) == strip_groups(rest, depth),
    decreases x.len(),
{
    if x.len() > 0 {
        let t = x.drop_first();
        assert(no_brackets(t)) by {
            assert forall|i: int| 0 <= i < t.len() implies !is_open(#[trigger] t[i]) && !is_close(t[i]) by {
                assert(t[i] == x[i + 1]);
            }
        }
        assert(!is_open(x[0]) && !is_close(x[0]));
        assert((x + rest)[0] == x[0]);
        assert((x + rest).drop_first() =~= t + rest);
        lemma_strip_inside_group(t, rest, depth);
    }
}

/// What stands in brackets does not count: removing a bracketed group (with no
/// brackets inside it) from a name whose part before it has no brackets leaves
/// the guess unchanged, so `Saga 003 (2013)` guesses like `Saga 003 `.
pub proof fn lemma_bracket_group_ignored(a: Seq<char>, left: char, x: Seq<char>, right: char, b: Seq<char>)
    requires
        no_brackets(a),
        no_brackets(x),
        is_open(left),
        is_close(right),
    ensures
        guessed_number(a + seq![left] + x + seq![right] + b) == guessed_number(a + b),
        guessed_series(a + seq![left] + x + seq![right] + b) == guessed_series(a + b),
{
    let g = seq![left] + x + seq![right] + b;
    assert(a + seq![left] + x + seq![right] + b =~= a + g);
    lemma_strip_plain_prefix(a, g);
    lemma_strip_plain_prefix(a, b);
    assert(g[0] == left);
    assert(g.drop_first() =~= x + (seq![right] + b));
    lemma_strip_inside_group(x, seq![right] + b, 1);
    let cb = seq![right] + b;
    assert(cb[0] == right);
    assert(cb.drop_first() =~= b);
    assert(strip_groups(g, 0) == strip_groups(b, 0));
    assert(stem_tokens(a + g) == stem_tokens(a + b));
}

/// The digits a token's number is read from: the run of digits after any `#`.
pub open spec fn number_digits(t: Seq<char>) -> Seq<char> {
    let u = skip_char(t, '#');
    u.take(digit_run(u) as int)
}

/// Four digits with a value from 1900 to 2100: what reads as a year.
pub open spec fn reads_as_year(d: Seq<char>) -> bool {
    d.len() == 4 && 1900 <= digits_value(d) <= 2100
}

/// A token gives a number only from its digits, and never from a year.
pub proof fn lemma_token_number_is_no_year(t: Seq<char>)
    ensures
        token_number(t) matches Some(n) ==> n == digits_value(number_digits(t)) && number_digits(t).len() > 0
            && !reads_as_year(number_digits(t)),
        number_digits(t).len() == 0 || reads_as_year(number_digits(t)) ==> token_number(t) is None,
{
}

proof fn lemma_no_numbered_token(toks: Seq<Seq<char>>)
    requires
        forall|i: int| 0 <= i < toks.len() ==> #[trigger] token_number(toks[i]) is None,
    ensures
        last_numbered(toks) is None,
    decreases toks.len(),
{
    if toks.len() > 0 {
        assert(token_number(toks[toks.len() - 1]) is None);
        assert forall|i: int| 0 <= i < toks.len() - 1 implies #[trigger] token_number(toks.drop_last()[i]) is None by {
            assert(toks.drop_last()[i] == toks[i]);
        }
        lemma_no_numbered_token(toks.drop_last());
    }
}

/// The number guessed from a file name is the number of one of its tokens
/// (outside brackets), read from that token's digits, and is never a loose
/// year; a name whose only numbers are years guesses no number at all.
pub proof fn lemma_guessed_number_is_no_year(stem: Seq<char>)
    ensures
        guessed_number(stem) matches Some(n) ==> exists|i: int|
            0 <= i < stem_tokens(stem).len() && n == digits_value(number_digits(#[trigger] stem_tokens(stem)[i]))
                && !reads_as_year(number_digits(stem_tokens(stem)[i])),
        (forall|i: int| 0 <= i < stem_tokens(stem).len() ==> number_digits(#[trigger] stem_tokens(stem)[i]).len() == 0
            || reads_as_year(number_digits(stem_tokens(stem)[i]))) ==> guessed_number(stem) is None,
{
    let toks = stem_tokens(stem);
    lemma_last_numbered_bound(toks);
    if let Some(i) = last_numbered(toks) {
        lemma_token_number_is_no_year(toks[i]);
    }
    if forall|i: int| 0 <= i < toks.len() ==> number_digits(#[trigger] toks[i]).len() == 0 || reads_as_year(number_digits(toks[i])) {
        assert forall|i: int| 0 <= i < toks.len() implies #[trigger] token_number(toks[i]) is None by {
            lemma_token_number_is_no_year(toks[i]);
        }
        lemma_no_numbered_token(toks);
    }
}

/* ---------- ComicInfo.xml ---------- */

/// One step of reading an XML document, reduced to what the metadata reader uses.
pub enum XmlEvent {
    /// A start tag, with its local name (namespace prefix removed).
    Start(String),
    /// Text between tags, already trimmed by the reader; `None` when its bytes
    /// could not be decoded.
    Text(Option<String>),
    /// An end tag.
    End,
    /// End of the document.
    Eof,
    /// The document is malformed at this point.
    Error,
    /// Anything else: empty elements, comments, declarations, references...
    Other,
}

pub open spec fn is_terminator(e: XmlEvent) -> bool {
    e is Eof || e is Error
}

/// The events end with the end of the document or an error, and neither comes earlier.
pub open spec fn well_terminated(evs: Seq<XmlEvent>) -> bool {
    &&& evs.len() > 0
    &&& is_terminator(evs.last())
    &&& forall|k: int| 0 <= k < evs.len() - 1 ==> !is_terminator(#[trigger] evs[k])
}

#[verifier::external_type_specification]
#[verifier::external_body]
#[verifier::reject_recursive_types(R)]
pub struct ExXmlReader<R>(quick_xml::Reader<R>);

/// What `String::from_utf8_lossy` makes of a byte sequence: invalid sequences
/// become U+FFFD.
pub uninterp spec fn utf8_lossy(bytes: Seq<u8>) -> Seq<char>;

/// The events that a `quick_xml::Reader` created on `text`, with text trimming
/// on, yields from `read_event`, up to and including the first end of document
/// or error.
pub uninterp spec fn xml_events(text: Seq<char>) -> Seq<XmlEvent>;

/// The events that a reader has still to yield, up to and including the first
/// end of document or error.
pub uninterp spec fn xml_pending(r: quick_xml::Reader<&[u8]>) -> Seq<XmlEvent>;

/// `String::from_utf8_lossy`. The result is named `utf8_lossy` of the bytes; for
/// valid UTF-8 it is the decoded text, as the standard library documents.
#[verifier::external_body]
fn decode_lossy(bytes: &[u8]) -> (r: String)
    ensures
        r@ == utf8_lossy(bytes@),
        valid_utf8(bytes@) ==> r@ == decode_utf8(bytes@),
{
    String::from_utf8_lossy(bytes).into_owned()
}

/// `quick_xml::Reader::from_str` on `text`, then `trim_text(true)` on its
/// configuration. The reader will yield `xml_events(text)`. The contract also
/// states that this event sequence is finite and ends at the first end of
/// document or error: each `read_event` consumes input until `Event::Eof`.
#[verifier::external_body]
fn xml_reader<'a>(text: &'a str) -> (r: quick_xml::Reader<&'a [u8]>)
    ensures
        xml_pending(r) == xml_events(text@),
        well_terminated(xml_pending(r)),
{
    let mut r = quick_xml::Reader::from_str(text);
    r.config_mut().trim_text(true);
    r
}

/// `quick_xml::Reader::read_event`, with the event reduced to an `XmlEvent`:
/// the local name of a start tag (`BytesStart::local_name`, lossily decoded),
/// the text of a text event (`BytesText::decode`). The event returned is the
/// next pending one, and it leaves the pending sequence.
#[verifier::external_body]
fn xml_next<'a>(r: &mut quick_xml::Reader<&'a [u8]>) -> (e: XmlEvent)
    requires
        xml_pending(*old(r)).len() > 0,
    ensures
        e == xml_pending(*old(r))[0],
        xml_pending(*final(r)) == xml_pending(*old(r)).drop_first(),
{
    match r.read_event() {
        Ok(Event::Start(s)) => XmlEvent::Start(String::from_utf8_lossy(s.local_name().as_ref()).into_owned()),
        Ok(Event::Text(t)) => XmlEvent::Text(t.decode().ok().map(|v| v.into_owned())),
        Ok(Event::End(_)) => XmlEvent::End,
        Ok(Event::Eof) => XmlEvent::Eof,
        Ok(_) => XmlEvent::Other,
        Err(_) => XmlEvent::Error,
    }
}

/// How many elements are open after the first `n` events. An end tag with no
/// element open closes nothing.
pub open spec fn depth_at(evs: Seq<XmlEvent>, n: int) -> nat
    decreases n,
{
    if n <= 0 {
        0
    } else {
        let d = depth_at(evs, n - 1);
        match evs[n - 1] {
            XmlEvent::Start(_) => d + 1,
            XmlEvent::End => if d > 0 {
                (d - 1) as nat
            } else {
                0
            },
            _ => d,
        }
    }
}

/// The first-level element whose text is being read before event `k`: the
/// lower-cased name of the last start tag, when that tag opened a child of the
/// document's root element and no end tag came after it. Deeper elements
/// choose no field.
pub open spec fn current_at(evs: Seq<XmlEvent>, k: int) -> Option<Seq<char>>
    decreases k,
{
    if k <= 0 {
        None
    } else {
        match evs[k - 1] {
            XmlEvent::Start(n) => if depth_at(evs, k) == 2 {
                Some(lowercase(n@))
            } else {
                None
            },
            XmlEvent::End => None,
            _ => current_at(evs, k - 1),
        }
    }
}

/// The field and trimmed value that event `k` assigns, if it is a decodable,
/// non-blank text inside an element.
pub open spec fn assignment(evs: Seq<XmlEvent>, k: int) -> Option<(Seq<char>, Seq<char>)> {
    match evs[k] {
        XmlEvent::Text(Some(t)) => match current_at(evs, k) {
            Some(f) => if trim_ws(t@).len() > 0 {
                Some((f, trim_ws(t@)))
            } else {
                None
            },
            None => None,
        },
        _ => None,
    }
}

/// The fields of ComicInfo.xml that are kept.
pub enum Field {
    Series,
    Number,
    Count,
    Volume,
    Title,
    Publisher,
    Year,
    Writer,
    Summary,
    LanguageIso,
    Manga,
    /// Any other element.
    Unknown,
}

/// The field an element name (in lower case) stands for.
pub open spec fn field_named(f: Seq<char>) -> Field {
    if f == "series"@ {
        Field::Series
    } else if f == "number"@ {
        Field::Number
    } else if f == "count"@ {
        Field::Count
    } else if f == "volume"@ {
        Field::Volume
    } else if f == "title"@ {
        Field::Title
    } else if f == "publisher"@ {
        Field::Publisher
    } else if f == "year"@ {
        Field::Year
    } else if f == "writer"@ {
        Field::Writer
    } else if f == "summary"@ {
        Field::Summary
    } else if f == "languageiso"@ {
        Field::LanguageIso
    } else if f == "manga"@ {
        Field::Manga
    } else {
        Field::Unknown
    }
}

/// The last value assigned to field `fld` by the first `n` events.
pub open spec fn last_value(evs: Seq<XmlEvent>, n: int, fld: Field) -> Option<Seq<char>>
    decreases n,
{
    if n <= 0 {
        None
    } else {
        match assignment(evs, n - 1) {
            Some((g, v)) => if field_named(g) == fld {
                Some(v)
            } else {
                last_value(evs, n - 1, fld)
            },
            None => last_value(evs, n - 1, fld),
        }
    }
}

/// Whether any of the first `n` events assigns a value.
pub open spec fn any_assignment(evs: Seq<XmlEvent>, n: int) -> bool
    decreases n,
{
    if n <= 0 {
        false
    } else {
        assignment(evs, n - 1) is Some || any_assignment(evs, n - 1)
    }
}

/// A value read as an `i32` the way `str::parse` reads it.
pub open spec fn int_of(v: Seq<char>) -> Option<i32> {
    match parse_signed(v, i32::MIN as int, i32::MAX as int) {
        Some(n) => Some(n as i32),
        None => None,
    }
}

pub open spec fn int_value(evs: Seq<XmlEvent>, n: int, fld: Field) -> Option<i32> {
    match last_value(evs, n, fld) {
        Some(v) => int_of(v),
        None => None,
    }
}

/// `info` holds what the first `n` events assign to each field.
pub open spec fn describes(info: ComicInfoXml, evs: Seq<XmlEvent>, n: int) -> bool {
    &&& opt_view(info.series) == last_value(evs, n, Field::Series)
    &&& opt_view(info.number) == last_value(evs, n, Field::Number)
    &&& info.count == int_value(evs, n, Field::Count)
    &&& info.volume == int_value(evs, n, Field::Volume)
    &&& opt_view(info.title) == last_value(evs, n, Field::Title)
    &&& opt_view(info.publisher) == last_value(evs, n, Field::Publisher)
    &&& info.year == int_value(evs, n, Field::Year)
    &&& opt_view(info.writer) == last_value(evs, n, Field::Writer)
    &&& opt_view(info.summary) == last_value(evs, n, Field::Summary)
    &&& opt_view(info.language_iso) == last_value(evs, n, Field::LanguageIso)
    &&& opt_view(info.manga) == last_value(evs, n, Field::Manga)
}

/// The last value that the first `n` events assign to a first-level element
/// whose lower-cased name is `name`.
pub open spec fn last_named(evs: Seq<XmlEvent>, n: int, name: Seq<char>) -> Option<Seq<char>>
    decreases n,
{
    if n <= 0 {
        None
    } else {
        match assignment(evs, n - 1) {
            Some((g, v)) => if g == name {
                Some(v)
            } else {
                last_named(evs, n - 1, name)
            },
            None => last_named(evs, n - 1, name),
        }
    }
}

/// Each field is chosen by its own element name, and by no other.
pub proof fn lemma_field_names(g: Seq<char>)
    ensures
        field_named(g) == Field::Series <==> g == "series"@,
        field_named(g) == Field::Number <==> g == "number"@,
        field_named(g) == Field::Count <==> g == "count"@,
        field_named(g) == Field::Volume <==> g == "volume"@,
        field_named(g) == Field::Title <==> g == "title"@,
        field_named(g) == Field::Publisher <==> g == "publisher"@,
        field_named(g) == Field::Year <==> g == "year"@,
        field_named(g) == Field::Writer <==> g == "writer"@,
        field_named(g) == Field::Summary <==> g == "summary"@,
        field_named(g) == Field::LanguageIso <==> g == "languageiso"@,
        field_named(g) == Field::Manga <==> g == "manga"@,
{
    reveal_strlit("series");
    assert("series"@.len() == 6 && "series"@[0] == 's');
    reveal_strlit("number");
    assert("number"@.len() == 6 && "number"@[0] == 'n');
    reveal_strlit("count");
    assert("count"@.len() == 5 && "count"@[0] == 'c');
    reveal_strlit("volume");
    assert("volume"@.len() == 6 && "volume"@[0] == 'v');
    reveal_strlit("title");
    assert("title"@.len() == 5 && "title"@[0] == 't');
    reveal_strlit("publisher");
    assert("publisher"@.len() == 9 && "publisher"@[0] == 'p');
    reveal_strlit("year");
    assert("year"@.len() == 4 && "year"@[0] == 'y');
    reveal_strlit("writer");
    assert("writer"@.len() == 6 && "writer"@[0] == 'w');
    reveal_strlit("summary");
    assert("summary"@.len() == 7 && "summary"@[0] == 's');
    reveal_strlit("languageiso");
    assert("languageiso"@.len() == 11 && "languageiso"@[0] == 'l');
    reveal_strlit("manga");
    assert("manga"@.len() == 5 && "manga"@[0] == 'm');
}

proof fn lemma_last_value_named(evs: Seq<XmlEvent>, n: int, fld: Field, name: Seq<char>)
    requires
        forall|g: Seq<char>| #[trigger] field_named(g) == fld <==> g == name,
    ensures
        last_value(evs, n, fld) == last_named(evs, n, name),
    decreases n,
{
    if n > 0 {
        lemma_last_value_named(evs, n - 1, fld, name);
    }
}

/// Each field of the metadata holds the text of the first-level element of its
/// own name (in any case), the last one when there are several: `Writer` goes
/// to the writer, `Summary` to the summary, and so on, and no element feeds
/// another field.
pub proof fn lemma_fields_take_their_elements(evs: Seq<XmlEvent>, n: int)
    ensures
        last_value(evs, n, Field::Series) == last_named(evs, n, "series"@),
        last_value(evs, n, Field::Number) == last_named(evs, n, "number"@),
        last_value(evs, n, Field::Count) == last_named(evs, n, "count"@),
        last_value(evs, n, Field::Volume) == last_named(evs, n, "volume"@),
        last_value(evs, n, Field::Title) == last_named(evs, n, "title"@),
        last_value(evs, n, Field::Publisher) == last_named(evs, n, "publisher"@),
        last_value(evs, n, Field::Year) == last_named(evs, n, "year"@),
        last_value(evs, n, Field::Writer) == last_named(evs, n, "writer"@),
        last_value(evs, n, Field::Summary) == last_named(evs, n, "summary"@),
        last_value(evs, n, Field::LanguageIso) == last_named(evs, n, "languageiso"@),
        last_value(evs, n, Field::Manga) == last_named(evs, n, "manga"@),
{
    assert forall|g: Seq<char>| #[trigger] field_named(g) == Field::Series <==> g == "series"@ by {
        lemma_field_names(g);
    }
    lemma_last_value_named(evs, n, Field::Series, "series"@);
    assert forall|g: Seq<char>| #[trigger] field_named(g) == Field::Number <==> g == "number"@ by {
        lemma_field_names(g);
    }
    lemma_last_value_named(evs, n, Field::Number, "number"@);
    assert forall|g: Seq<char>| #[trigger] field_named(g) == Field::Count <==> g == "count"@ by {
        lemma_field_names(g);
    }
    lemma_last_value_named(evs, n, Field::Count, "count"@);
    assert forall|g: Seq<char>| #[trigger] field_named(g) == Field::Volume <==> g == "volume"@ by {
        lemma_field_names(g);
    }
    lemma_last_value_named(evs, n, Field::Volume, "volume"@);
    assert forall|g: Seq<char>| #[trigger] field_named(g) == Field::Title <==> g == "title"@ by {
        lemma_field_names(g);
    }
    lemma_last_value_named(evs, n, Field::Title, "title"@);
    assert forall|g: Seq<char>| #[trigger] field_named(g) == Field::Publisher <==> g == "publisher"@ by {
        lemma_field_names(g);
    }
    lemma_last_value_named(evs, n, Field::Publisher, "publisher"@);
    assert forall|g: Seq<char>| #[trigger] field_named(g) == Field::Year <==> g == "year"@ by {
        lemma_field_names(g);
    }
    lemma_last_value_named(evs, n, Field::Year, "year"@);
    assert forall|g: Seq<char>| #[trigger] field_named(g) == Field::Writer <==> g == "writer"@ by {
        lemma_field_names(g);
    }
    lemma_last_value_named(evs, n, Field::Writer, "writer"@);
    assert forall|g: Seq<char>| #[trigger] field_named(g) == Field::Summary <==> g == "summary"@ by {
        lemma_field_names(g);
    }
    lemma_last_value_named(evs, n, Field::Summary, "summary"@);
    assert forall|g: Seq<char>| #[trigger] field_named(g) == Field::LanguageIso <==> g == "languageiso"@ by {
        lemma_field_names(g);
    }
    lemma_last_value_named(evs, n, Field::LanguageIso, "languageiso"@);
    assert forall|g: Seq<char>| #[trigger] field_named(g) == Field::Manga <==> g == "manga"@ by {
        lemma_field_names(g);
    }
    lemma_last_value_named(evs, n, Field::Manga, "manga"@);
}

/// `info` holds, in each field, the text of the last first-level element of that
/// field's name among the first `n` events (a number field holds it read as an
/// `i32`).
pub open spec fn holds_elements(info: ComicInfoXml, evs: Seq<XmlEvent>, n: int) -> bool {
    &&& opt_view(info.series) == last_named(evs, n, "series"@)
    &&& opt_view(info.number) == last_named(evs, n, "number"@)
    &&& opt_view(info.title) == last_named(evs, n, "title"@)
    &&& opt_view(info.publisher) == last_named(evs, n, "publisher"@)
    &&& opt_view(info.writer) == last_named(evs, n, "writer"@)
    &&& opt_view(info.summary) == last_named(evs, n, "summary"@)
    &&& opt_view(info.language_iso) == last_named(evs, n, "languageiso"@)
    &&& opt_view(info.manga) == last_named(evs, n, "manga"@)
    &&& info.count == (match last_named(evs, n, "count"@) {
        Some(v) => int_of(v),
        None => None,
    })
    &&& info.volume == (match last_named(evs, n, "volume"@) {
        Some(v) => int_of(v),
        None => None,
    })
    &&& info.year == (match last_named(evs, n, "year"@) {
        Some(v) => int_of(v),
        None => None,
    })
}

/// The events the metadata reader sees for the bytes of a ComicInfo.xml.
pub open spec fn metadata_events(xml: Seq<u8>) -> Seq<XmlEvent> {
    xml_events(utf8_lossy(xml))
}

fn same_chars(a: &Vec<char>, lit: &str) -> (r: bool)
    ensures
        r == (a@ == lit@),
{
    let b: Vec<char> = chars_of(lit);
    crate::text::chars_eq(a, &b)
}

/// The field an element name (in lower case) stands for.
fn field_of(f: &Vec<char>) -> (r: Field)
    ensures
        r == field_named(f@),
{
    if same_chars(f, "series") {
        Field::Series
    } else if same_chars(f, "number") {
        Field::Number
    } else if same_chars(f, "count") {
        Field::Count
    } else if same_chars(f, "volume") {
        Field::Volume
    } else if same_chars(f, "title") {
        Field::Title
    } else if same_chars(f, "publisher") {
        Field::Publisher
    } else if same_chars(f, "year") {
        Field::Year
    } else if same_chars(f, "writer") {
        Field::Writer
    } else if same_chars(f, "summary") {
        Field::Summary
    } else if same_chars(f, "languageiso") {
        Field::LanguageIso
    } else if same_chars(f, "manga") {
        Field::Manga
    } else {
        Field::Unknown
    }
}

/// Stores value `v` in the field `fld`.
fn assign_field(info: &mut ComicInfoXml, fld: Field, v: &Vec<char>)
    ensures
        opt_view(final(info).series) == (if fld == Field::Series { Some(v@) } else { opt_view(old(info).series) }),
        opt_view(final(info).number) == (if fld == Field::Number { Some(v@) } else { opt_view(old(info).number) }),
        final(info).count == (if fld == Field::Count { int_of(v@) } else { old(info).count }),
        final(info).volume == (if fld == Field::Volume { int_of(v@) } else { old(info).volume }),
        opt_view(final(info).title) == (if fld == Field::Title { Some(v@) } else { opt_view(old(info).title) }),
        opt_view(final(info).publisher) == (if fld == Field::Publisher { Some(v@) } else { opt_view(old(info).publisher) }),
        final(info).year == (if fld == Field::Year { int_of(v@) } else { old(info).year }),
        opt_view(final(info).writer) == (if fld == Field::Writer { Some(v@) } else { opt_view(old(info).writer) }),
        opt_view(final(info).summary) == (if fld == Field::Summary { Some(v@) } else { opt_view(old(info).summary) }),
        opt_view(final(info).language_iso) == (if fld == Field::LanguageIso { Some(v@) } else { opt_view(old(info).language_iso) }),
        opt_view(final(info).manga) == (if fld == Field::Manga { Some(v@) } else { opt_view(old(info).manga) }),
{
    match fld {
        Field::Series => info.series = Some(string_of(v)),
        Field::Number => info.number = Some(string_of(v)),
        Field::Count => info.count = parse_i32(v),
        Field::Volume => info.volume = parse_i32(v),
        Field::Title => info.title = Some(string_of(v)),
        Field::Publisher => info.publisher = Some(string_of(v)),
        Field::Year => info.year = parse_i32(v),
        Field::Writer => info.writer = Some(string_of(v)),
        Field::Summary => info.summary = Some(string_of(v)),
        Field::LanguageIso => info.language_iso = Some(string_of(v)),
        Field::Manga => info.manga = Some(string_of(v)),
        Field::Unknown => {},
    }
}

/// Reads the text of the first-level elements of a ComicInfo.xml (the children
/// of its root element).
///
/// The file is flat, a list of tags with text, so walking the events is more
/// tolerant of odd fields, namespaces or garbage than deserializing the whole
/// document. Broken XML stops the reading, and what was read so far is kept.
/// `None` when no element carried any text at all.
pub fn parse(xml: &[u8]) -> (r: Option<ComicInfoXml>)
    ensures
        r is Some <==> any_assignment(metadata_events(xml@), metadata_events(xml@).len() as int),
        r matches Some(info) ==> describes(
            info,
            metadata_events(xml@),
            metadata_events(xml@).len() as int,
        ),
        r matches Some(info) ==> holds_elements(info, metadata_events(xml@), metadata_events(xml@).len() as int),
{
    proof {
        lemma_fields_take_their_elements(metadata_events(xml@), metadata_events(xml@).len() as int);
    }
    let text: String = decode_lossy(xml);
    let mut reader = xml_reader(text.as_str());
    let ghost evs = xml_pending(reader);
    let mut info: ComicInfoXml = ComicInfoXml::empty();
    let mut current: Option<Vec<char>> = None;
    // The names of the elements open, innermost last.
    let mut open: Vec<Vec<char>> = Vec::new();
    let mut found: bool = false;
    let ghost mut k: int = 0;
    assert(evs.skip(0) =~= evs);
    loop
        invariant_except_break
            0 <= k < evs.len(),
            xml_pending(reader) == evs.skip(k),
            match current {
                Some(c) => current_at(evs, k) == Some(c@),
                None => current_at(evs, k) is None,
            },
            found == any_assignment(evs, k),
            describes(info, evs, k),
            open.len() == depth_at(evs, k),
        invariant
            evs == metadata_events(xml@),
            well_terminated(evs),
        ensures
            found == any_assignment(evs, evs.len() as int),
            describes(info, evs, evs.len() as int),
        decreases evs.len() - k,
    {
        let ev: XmlEvent = xml_next(&mut reader);
        assert(ev == evs[k]);
        proof {
            assert(evs.skip(k).drop_first() =~= evs.skip(k + 1));
        }
        match ev {
            XmlEvent::Start(name) => {
                let lower: String = to_lower(name.as_str());
                let lv: Vec<char> = chars_of(lower.as_str());
                open.push(lv);
                current = if open.len() == 2 {
                    Some(chars_of(lower.as_str()))
                } else {
                    None
                };
            },
            XmlEvent::Text(decoded) => {
                match (&current, decoded) {
                    (Some(f), Some(t)) => {
                        let tv: Vec<char> = chars_of(t.as_str());
                        let value: Vec<char> = trim_chars(&tv);
                        if value.len() > 0 {
                            found = true;
                            let fld: Field = field_of(f);
                            assign_field(&mut info, fld, &value);
                        }
                    },
                    _ => {},
                }
            },
            XmlEvent::End => {
                open.pop();
                current = None;
            },
            XmlEvent::Eof => {
                assert(k == evs.len() - 1);
                break;
            },
            XmlEvent::Error => {
                assert(k == evs.len() - 1);
                break;
            },
            XmlEvent::Other => {},
        }
        proof {
            k = k + 1;
            if k == evs.len() {
                assert(is_terminator(evs.last()));
            }
        }
    }
    if found {
        Some(info)
    } else {
        None
    }
}


/// The metadata of a comic from its ComicInfo.xml, when the archive has one
/// (`metadata` is what the archive holds under that name).
pub fn read(metadata: Option<Vec<u8>>) -> (r: Option<ComicInfoXml>)
    ensures
        metadata is None ==> r is None,
        metadata matches Some(xml) ==> {
            &&& r is Some <==> any_assignment(metadata_events(xml@), metadata_events(xml@).len() as int)
            &&& r matches Some(info) ==> describes(info, metadata_events(xml@), metadata_events(xml@).len() as int)
            &&& r matches Some(info) ==> holds_elements(info, metadata_events(xml@), metadata_events(xml@).len() as int)
        },
{
    match metadata {
        Some(xml) => parse(xml.as_slice()),
        None => None,
    }
}

} // verus!

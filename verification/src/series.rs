//! The state of a series in a folder: which series it is, which issues you
//! have, and which are missing. The caller reads the comics of one folder level
//! (not its subtree) and hands over, for each, its embedded metadata and its
//! file stem.

use vstd::prelude::*;
use crate::comicinfo::{
    guess_from_filename, guessed_number, guessed_series, issue_number, issue_number_of, opt_view,
    ComicInfoXml,
};
use crate::commands::SeriesInfo;
use crate::metron::SeriesHint;
use crate::text::{chars_eq, chars_of, string_of};

verus! {

/// A comic of the folder as the series analysis sees it.
pub struct ComicRecord {
    /// Its ComicInfo.xml, when it has one.
    pub meta: Option<ComicInfoXml>,
    /// Its file name without the extension.
    pub stem: String,
}

/* ---------- What the records say ---------- */

/// How many records carry metadata.
pub open spec fn tagged_count(rs: Seq<ComicRecord>) -> nat
    decreases rs.len(),
{
    if rs.len() == 0 {
        0
    } else {
        tagged_count(rs.drop_last()) + if rs.last().meta is Some {
            1nat
        } else {
            0nat
        }
    }
}

/// Issue numbers that the metadata declares, in record order.
pub open spec fn tagged_numbers(rs: Seq<ComicRecord>) -> Seq<u32>
    decreases rs.len(),
{
    if rs.len() == 0 {
        Seq::empty()
    } else {
        let p = tagged_numbers(rs.drop_last());
        match rs.last().meta {
            Some(m) => match m.number {
                Some(n) => match issue_number_of(n@) {
                    Some(k) => p.push(k),
                    None => p,
                },
                None => p,
            },
            None => p,
        }
    }
}

/// Issue numbers guessed from the names of the records without metadata.
pub open spec fn guessed_numbers(rs: Seq<ComicRecord>) -> Seq<u32>
    decreases rs.len(),
{
    if rs.len() == 0 {
        Seq::empty()
    } else {
        let p = guessed_numbers(rs.drop_last());
        match rs.last().meta {
            Some(_) => p,
            None => match guessed_number(rs.last().stem@) {
                Some(k) => p.push(k),
                None => p,
            },
        }
    }
}

/// Series names that the metadata declares, one vote per record.
pub open spec fn tagged_votes(rs: Seq<ComicRecord>) -> Seq<Seq<char>>
    decreases rs.len(),
{
    if rs.len() == 0 {
        Seq::empty()
    } else {
        let p = tagged_votes(rs.drop_last());
        match rs.last().meta {
            Some(m) => match m.series {
                Some(s) => p.push(s@),
                None => p,
            },
            None => p,
        }
    }
}

/// Series names guessed from the names of the records without metadata.
pub open spec fn guessed_votes(rs: Seq<ComicRecord>) -> Seq<Seq<char>>
    decreases rs.len(),
{
    if rs.len() == 0 {
        Seq::empty()
    } else {
        let p = guessed_votes(rs.drop_last());
        match rs.last().meta {
            Some(_) => p,
            None => match guessed_series(rs.last().stem@) {
                Some(s) => p.push(s),
                None => p,
            },
        }
    }
}

/// The publisher of the first record with metadata that names one.
pub open spec fn first_publisher(rs: Seq<ComicRecord>) -> Option<String>
    decreases rs.len(),
{
    if rs.len() == 0 {
        None
    } else {
        let p = first_publisher(rs.drop_last());
        if p is Some {
            p
        } else {
            match rs.last().meta {
                Some(m) => m.publisher,
                None => None,
            }
        }
    }
}

/// A volume counts when it is positive.
pub open spec fn usable_volume(v: Option<i32>) -> Option<u32> {
    match v {
        Some(x) => if x > 0 {
            Some(x as u32)
        } else {
            None
        },
        None => None,
    }
}

/// A year counts when it lies in 1900..=2100.
pub open spec fn usable_year(y: Option<i32>) -> Option<i32> {
    match y {
        Some(x) => if 1900 <= x <= 2100 {
            Some(x)
        } else {
            None
        },
        None => None,
    }
}

/// The first usable volume that the metadata declares.
pub open spec fn first_volume(rs: Seq<ComicRecord>) -> Option<u32>
    decreases rs.len(),
{
    if rs.len() == 0 {
        None
    } else {
        let p = first_volume(rs.drop_last());
        if p is Some {
            p
        } else {
            match rs.last().meta {
                Some(m) => usable_volume(m.volume),
                None => None,
            }
        }
    }
}

/// The first usable year that the metadata declares.
pub open spec fn first_year(rs: Seq<ComicRecord>) -> Option<i32>
    decreases rs.len(),
{
    if rs.len() == 0 {
        None
    } else {
        let p = first_year(rs.drop_last());
        if p is Some {
            p
        } else {
            match rs.last().meta {
                Some(m) => usable_year(m.year),
                None => None,
            }
        }
    }
}

/// The highest positive total of issues that the metadata declares: a release
/// with an outdated count must not cut the series short.
pub open spec fn declared_total(rs: Seq<ComicRecord>) -> Option<u32>
    decreases rs.len(),
{
    if rs.len() == 0 {
        None
    } else {
        let p = declared_total(rs.drop_last());
        match rs.last().meta {
            Some(m) => match m.count {
                Some(c) => if c > 0 {
                    match p {
                        Some(d) => Some(if d >= c { d } else { c as u32 }),
                        None => Some(c as u32),
                    }
                } else {
                    p
                },
                None => p,
            },
            None => p,
        }
    }
}

/* ---------- Votes ---------- */

/// How many votes `n` has.
pub open spec fn votes_for(v: Seq<Seq<char>>, n: Seq<char>) -> nat
    decreases v.len(),
{
    if v.len() == 0 {
        0
    } else {
        votes_for(v.drop_last(), n) + if v.last() == n {
            1nat
        } else {
            0nat
        }
    }
}

/// `v[k]` has the most votes, and no name met before it has as many.
pub open spec fn leads(v: Seq<Seq<char>>, k: int) -> bool {
    &&& 0 <= k < v.len()
    &&& forall|j: int| 0 <= j < v.len() ==> votes_for(v, #[trigger] v[j]) <= votes_for(v, v[k])
    &&& forall|j: int| 0 <= j < k ==> votes_for(v, #[trigger] v[j]) < votes_for(v, v[k])
}

/// The name with the most votes; among names with as many, the one voted
/// first. `None` when nobody voted.
pub open spec fn most_voted(v: Seq<Seq<char>>) -> Option<Seq<char>> {
    if v.len() == 0 {
        None
    } else {
        Some(v[choose|k: int| leads(v, k)])
    }
}

/// At most one index leads.
pub proof fn lemma_leader_unique(v: Seq<Seq<char>>, a: int, b: int)
    requires
        leads(v, a),
        leads(v, b),
    ensures
        a == b,
{
    if a < b {
        assert(votes_for(v, v[a]) < votes_for(v, v[b]));
        assert(votes_for(v, v[b]) <= votes_for(v, v[a]));
    } else if b < a {
        assert(votes_for(v, v[b]) < votes_for(v, v[a]));
        assert(votes_for(v, v[a]) <= votes_for(v, v[b]));
    }
}

/// How many times `n` occurs in `v`. Votes are counted over the list of names
/// rather than in a `HashMap<String, usize>`: the verifier's standard library
/// gives a `HashMap` keyed by `String` no specification that a proof can use.
/// The counts are the same; ties go to the name voted first, where a hash
/// map's walk would leave the winner to chance.
fn count_votes(v: &Vec<Vec<char>>, n: &Vec<char>) -> (r: usize)
    ensures
        r == votes_for(views(v@), n@),
{
    let mut c: usize = 0;
    let mut i: usize = 0;
    while i < v.len()
        invariant
            i <= v.len(),
            c <= i,
            c == votes_for(views(v@).take(i as int), n@),
        decreases v.len() - i,
    {
        assert(views(v@).take(i + 1).drop_last() =~= views(v@).take(i as int));
        if chars_eq(&v[i], n) {
            c = c + 1;
        }
        i = i + 1;
    }
    assert(views(v@).take(v.len() as int) =~= views(v@));
    c
}

/// The views of a sequence of character vectors.
pub open spec fn views(v: Seq<Vec<char>>) -> Seq<Seq<char>> {
    Seq::new(v.len(), |k: int| v[k]@)
}

/// The index of the name with the most votes, the first one on a tie.
pub fn most_voted_index(v: &Vec<Vec<char>>) -> (r: Option<usize>)
    ensures
        v.len() == 0 ==> r is None,
        v.len() > 0 ==> (r matches Some(k) && leads(views(v@), k as int)),
        most_voted(views(v@)) == (match r {
            Some(k) => Some(v@[k as int]@),
            None => None::<Seq<char>>,
        }),
{
    if v.len() == 0 {
        return None;
    }
    let ghost vs = views(v@);
    let mut best: usize = 0;
    let mut best_count: usize = count_votes(v, &v[0]);
    let mut i: usize = 1;
    while i < v.len()
        invariant
            vs == views(v@),
            1 <= i <= v.len(),
            best < i,
            best_count == votes_for(vs, vs[best as int]),
            forall|j: int| 0 <= j < i ==> votes_for(vs, #[trigger] vs[j]) <= best_count,
            forall|j: int| 0 <= j < best ==> votes_for(vs, #[trigger] vs[j]) < best_count,
        decreases v.len() - i,
    {
        let c: usize = count_votes(v, &v[i]);
        assert(vs[i as int] == v@[i as int]@);
        if c > best_count {
            best = i;
            best_count = c;
        }
        i = i + 1;
    }
    proof {
        assert(leads(vs, best as int));
        let k = choose|k: int| leads(vs, k);
        lemma_leader_unique(vs, k, best as int);
    }
    Some(best)
}

/// The name with the most votes, as `most_voted` says.
fn pick_most_voted(v: &Vec<Vec<char>>) -> (r: Option<String>)
    ensures
        opt_view(r) == most_voted(views(v@)),
{
    match most_voted_index(v) {
        Some(k) => Some(string_of(&v[k])),
        None => None,
    }
}

/* ---------- Issue numbers ---------- */

pub open spec fn increasing(s: Seq<u32>) -> bool {
    forall|a: int, b: int| 0 <= a < b < s.len() ==> s[a] < s[b]
}

/// `x` is among the first `i` numbers of `v`.
pub open spec fn seen(v: Seq<u32>, i: int, x: u32) -> bool {
    exists|m: int| 0 <= m < i && #[trigger] v[m] == x
}

proof fn lemma_insert_keeps(before: Seq<u32>, j: int, x: u32, y: u32)
    requires
        0 <= j <= before.len(),
        before.contains(y),
    ensures
        before.insert(j, x).contains(y),
{
    before.insert_ensures(j, x);
    let k = choose|k: int| 0 <= k < before.len() && before[k] == y;
    if k < j {
        assert(before.insert(j, x)[k] == y);
    } else {
        assert(before.insert(j, x)[k + 1] == y);
    }
}

proof fn lemma_insert_increasing(before: Seq<u32>, j: int, x: u32)
    requires
        0 <= j <= before.len(),
        increasing(before),
        forall|k: int| 0 <= k < j ==> before[k] < x,
        j < before.len() ==> before[j] > x,
    ensures
        increasing(before.insert(j, x)),
{
    before.insert_ensures(j, x);
    let out = before.insert(j, x);
    assert forall|a: int, b: int| 0 <= a < b < out.len() implies out[a] < out[b] by {
        if b < j {
            assert(out[a] == before[a] && out[b] == before[b]);
        } else if b == j {
            assert(out[a] == before[a]);
        } else {
            assert(out[b] == before[b - 1]);
            assert(before[b - 1] > x) by {
                if b - 1 > j {
                    assert(before[j] < before[b - 1]);
                }
            }
            if a < j {
                assert(out[a] == before[a]);
            } else if a > j {
                assert(out[a] == before[a - 1]);
            }
        }
    }
}

/// The numbers of `v`, in increasing order, each once.
pub fn sorted_unique(v: &Vec<u32>) -> (r: Vec<u32>)
    ensures
        increasing(r@),
        forall|x: u32| r@.contains(x) <==> v@.contains(x),
{
    let mut out: Vec<u32> = Vec::new();
    let mut i: usize = 0;
    while i < v.len()
        invariant
            i <= v.len(),
            increasing(out@),
            forall|k: int| 0 <= k < out.len() ==> seen(v@, i as int, #[trigger] out@[k]),
            forall|m: int| 0 <= m < i ==> out@.contains(#[trigger] v@[m]),
        decreases v.len() - i,
    {
        let x: u32 = v[i];
        let mut j: usize = 0;
        while j < out.len() && out[j] < x
            invariant
                j <= out.len(),
                increasing(out@),
                forall|k: int| 0 <= k < j ==> out@[k] < x,
            decreases out.len() - j,
        {
            j = j + 1;
        }
        let ghost before = out@;
        if j < out.len() && out[j] == x {
            assert(out@.contains(v@[i as int]));
        } else {
            out.insert(j, x);
            proof {
                before.insert_ensures(j as int, x);
                lemma_insert_increasing(before, j as int, x);
                assert forall|m: int| 0 <= m < i implies out@.contains(#[trigger] v@[m]) by {
                    lemma_insert_keeps(before, j as int, x, v@[m]);
                }
                assert(out@[j as int] == v@[i as int]);
                assert forall|k: int| 0 <= k < out.len() implies seen(v@, i + 1, #[trigger] out@[k]) by {
                    if k < j {
                        assert(out@[k] == before[k]);
                        assert(seen(v@, i as int, before[k]));
                    } else if k > j {
                        assert(out@[k] == before[k - 1]);
                        assert(seen(v@, i as int, before[k - 1]));
                    } else {
                        assert(v@[i as int] == out@[k]);
                    }
                }
            }
        }
        assert forall|k: int| 0 <= k < out.len() implies seen(v@, i + 1, #[trigger] out@[k]) by {
            if seen(v@, i as int, out@[k]) {
                let m = choose|m: int| 0 <= m < i && #[trigger] v@[m] == out@[k];
                assert(v@[m] == out@[k]);
            } else {
                assert(v@[i as int] == out@[k]);
            }
        }
        i = i + 1;
    }
    assert forall|x: u32| out@.contains(x) <==> v@.contains(x) by {
        if out@.contains(x) {
            let k = choose|k: int| 0 <= k < out.len() && out@[k] == x;
            assert(seen(v@, v.len() as int, out@[k]));
        }
        if v@.contains(x) {
            let m = choose|m: int| 0 <= m < v.len() && v@[m] == x;
            assert(out@.contains(v@[m]));
        }
    }
    out
}

/// The last issue that counts: the highest of the last one you have and the
/// declared total.
pub open spec fn last_expected(owned: Seq<u32>, total: Option<u32>) -> u32 {
    match total {
        Some(t) => if t >= owned.last() {
            t
        } else {
            owned.last()
        },
        None => owned.last(),
    }
}

/// `x` is missing: it lies between the first issue you have and the last one
/// expected, and you do not have it.
pub open spec fn is_missing(owned: Seq<u32>, total: Option<u32>, x: u32) -> bool {
    owned.len() > 0 && owned[0] <= x <= last_expected(owned, total) && !owned.contains(x)
}

/// The gaps of a series: what is missing between the first and the last issue
/// you have, and up to the declared total when there is one. In order.
pub fn missing_issues(owned: &Vec<u32>, total: Option<u32>) -> (r: Vec<u32>)
    requires
        increasing(owned@),
    ensures
        increasing(r@),
        forall|x: u32| r@.contains(x) <==> is_missing(owned@, total, x),
{
    let mut out: Vec<u32> = Vec::new();
    if owned.len() == 0 {
        return out;
    }
    let first: u32 = owned[0];
    let last: u32 = owned[owned.len() - 1];
    let hasta: u32 = match total {
        Some(t) => if t >= last {
            t
        } else {
            last
        },
        None => last,
    };
    assert(hasta == last_expected(owned@, total));
    assert(first <= last) by {
        if owned.len() > 1 {
            assert(owned@[0] < owned@[owned.len() - 1]);
        }
    }
    // Walk the range with a wider counter so that `hasta == u32::MAX` ends.
    let mut n: u64 = first as u64;
    // Position of the first owned issue not below `n`.
    let mut j: usize = 0;
    while n <= hasta as u64
        invariant
            owned.len() > 0,
            increasing(owned@),
            first == owned@[0],
            hasta == last_expected(owned@, total),
            first <= n <= hasta as u64 + 1,
            j <= owned.len(),
            forall|k: int| 0 <= k < j ==> owned@[k] < n,
            forall|k: int| j <= k < owned.len() ==> owned@[k] >= n,
            increasing(out@),
            forall|k: int| 0 <= k < out.len() ==> out@[k] < n,
            forall|x: u32| out@.contains(x) <==> (x < n && is_missing(owned@, total, x)),
        decreases hasta as u64 + 1 - n,
    {
        let x: u32 = n as u32;
        let have: bool = j < owned.len() && owned[j] == x;
        assert(have <==> owned@.contains(x)) by {
            if owned@.contains(x) {
                let k = choose|k: int| 0 <= k < owned.len() && owned@[k] == x;
                if k > j {
                    assert(owned@[j as int] < owned@[k]);
                }
            }
        }
        let ghost before = out@;
        if !have {
            out.push(x);
        }
        assert forall|y: u32| out@.contains(y) <==> (y < n + 1 && is_missing(owned@, total, y)) by {
            if out@.contains(y) && !before.contains(y) {
                assert(out@[before.len() as int] == y || before.contains(y)) by {
                    let k = choose|k: int| 0 <= k < out@.len() && out@[k] == y;
                    if k < before.len() {
                        assert(before[k] == y);
                    }
                }
            }
            if before.contains(y) {
                let k = choose|k: int| 0 <= k < before.len() && before[k] == y;
                assert(out@[k] == y);
            }
            if y == x && !have {
                assert(out@[before.len() as int] == x);
            }
        }
        if have {
            j = j + 1;
        }
        n = n + 1;
    }
    out
}

/* ---------- The series ---------- */

/// Whether the numbers come from the file names: no metadata declared one, and
/// the names gave some.
pub open spec fn numbers_guessed(rs: Seq<ComicRecord>) -> bool {
    tagged_numbers(rs).len() == 0 && guessed_numbers(rs).len() > 0
}

/// The numbers the series is made of before sorting.
pub open spec fn issue_source(rs: Seq<ComicRecord>) -> Seq<u32> {
    if numbers_guessed(rs) {
        guessed_numbers(rs)
    } else {
        tagged_numbers(rs)
    }
}

/// The series: the name most voted by the metadata, else the one most guessed
/// from the file names, else the folder's own.
pub open spec fn series_name(rs: Seq<ComicRecord>, folder: Option<Seq<char>>) -> Option<Seq<char>> {
    match most_voted(tagged_votes(rs)) {
        Some(n) => Some(n),
        None => match most_voted(guessed_votes(rs)) {
            Some(n) => Some(n),
            None => folder,
        },
    }
}

fn first_some_u32(a: Option<u32>, b: Option<u32>) -> (r: Option<u32>)
    ensures
        r == (if a is Some { a } else { b }),
{
    match a {
        Some(x) => Some(x),
        None => b,
    }
}

fn first_some_i32(a: Option<i32>, b: Option<i32>) -> (r: Option<i32>)
    ensures
        r == (if a is Some { a } else { b }),
{
    match a {
        Some(x) => Some(x),
        None => b,
    }
}

/// Analyses the comics of one folder level and tells which series it is and
/// whether it is complete. `records` are the comics in the order they were
/// read; `folder` is what the folder's own name tells (its cleaned name,
/// volume and year), the last resort.
pub fn series_info(records: &Vec<ComicRecord>, folder: SeriesHint) -> (r: SeriesInfo)
    ensures
        r.tagged == tagged_count(records@),
        r.untagged == records@.len() - tagged_count(records@),
        r.publisher == first_publisher(records@),
        r.volume == (if first_volume(records@) is Some { first_volume(records@) } else { folder.volume }),
        r.year == (if first_year(records@) is Some { first_year(records@) } else { folder.year }),
        r.total == declared_total(records@),
        forall|k: int, c: i32| 0 <= k < records@.len() && #[trigger] declares_total(records@[k], c) ==> (r.total matches Some(t)
            && t >= c),
        r.total matches Some(t) ==> exists|k: int| 0 <= k < records@.len() && declares_total(#[trigger] records@[k], t as i32),
        r.guessed == numbers_guessed(records@),
        increasing(r.owned@),
        forall|x: u32| r.owned@.contains(x) <==> issue_source(records@).contains(x),
        increasing(r.missing@),
        forall|x: u32| r.missing@.contains(x) <==> is_missing(r.owned@, r.total, x),
        opt_view(r.series) == series_name(records@, opt_view(folder.name)),
{
    proof {
        lemma_total_is_the_highest_declared(records@);
    }
    let mut tagged: usize = 0;
    let mut publisher: Option<String> = None;
    let mut volume: Option<u32> = None;
    let mut year: Option<i32> = None;
    let mut total: Option<u32> = None;
    let mut numbers: Vec<u32> = Vec::new();
    let mut guesses: Vec<u32> = Vec::new();
    let mut votes: Vec<Vec<char>> = Vec::new();
    let mut guessed_names: Vec<Vec<char>> = Vec::new();
    let mut i: usize = 0;
    while i < records.len()
        invariant
            i <= records.len(),
            tagged <= i,
            tagged == tagged_count(records@.take(i as int)),
            publisher == first_publisher(records@.take(i as int)),
            volume == first_volume(records@.take(i as int)),
            year == first_year(records@.take(i as int)),
            total == declared_total(records@.take(i as int)),
            numbers@ == tagged_numbers(records@.take(i as int)),
            guesses@ == guessed_numbers(records@.take(i as int)),
            views(votes@) == tagged_votes(records@.take(i as int)),
            views(guessed_names@) == guessed_votes(records@.take(i as int)),
        decreases records.len() - i,
    {
        let rec: &ComicRecord = &records[i];
        assert(records@.take(i + 1).drop_last() =~= records@.take(i as int));
        assert(records@.take(i + 1).last() == *rec);
        let ghost old_votes = votes@;
        let ghost old_guessed = guessed_names@;
        match &rec.meta {
            Some(m) => {
                tagged = tagged + 1;
                match &m.series {
                    Some(s) => {
                        votes.push(chars_of(s.as_str()));
                        assert(views(votes@) =~= views(old_votes).push(s@));
                    },
                    None => {},
                }
                if publisher.is_none() {
                    publisher = match &m.publisher {
                        Some(p) => Some(p.clone()),
                        None => None,
                    };
                }
                if volume.is_none() {
                    volume = match m.volume {
                        Some(v) => if v > 0 {
                            Some(v as u32)
                        } else {
                            None
                        },
                        None => None,
                    };
                }
                if year.is_none() {
                    year = match m.year {
                        Some(y) => if 1900 <= y && y <= 2100 {
                            Some(y)
                        } else {
                            None
                        },
                        None => None,
                    };
                }
                match m.count {
                    Some(c) => if c > 0 {
                        let c: u32 = c as u32;
                        total = match total {
                            Some(d) => Some(if d >= c { d } else { c }),
                            None => Some(c),
                        };
                    },
                    None => {},
                }
                match &m.number {
                    Some(n) => match issue_number(n.as_str()) {
                        Some(k) => numbers.push(k),
                        None => {},
                    },
                    None => {},
                }
            },
            None => {
                let guess = guess_from_filename(rec.stem.as_str());
                match guess.number {
                    Some(k) => guesses.push(k),
                    None => {},
                }
                match &guess.series {
                    Some(s) => {
                        guessed_names.push(chars_of(s.as_str()));
                        assert(views(guessed_names@) =~= views(old_guessed).push(s@));
                    },
                    None => {},
                }
            },
        }
        proof {
            if rec.meta is None || rec.meta->0.series is None {
                assert(views(votes@) =~= views(old_votes));
            }
            if rec.meta is Some || guessed_series(rec.stem@) is None {
                assert(views(guessed_names@) =~= views(old_guessed));
            }
        }
        i = i + 1;
    }
    assert(records@.take(records.len() as int) =~= records@);
    let guessed: bool = numbers.len() == 0 && guesses.len() > 0;
    let owned: Vec<u32> = if guessed {
        sorted_unique(&guesses)
    } else {
        sorted_unique(&numbers)
    };
    let missing: Vec<u32> = missing_issues(&owned, total);
    let series: Option<String> = match pick_most_voted(&votes) {
        Some(n) => Some(n),
        None => match pick_most_voted(&guessed_names) {
            Some(n) => Some(n),
            None => folder.name,
        },
    };
    SeriesInfo {
        series,
        publisher,
        volume: first_some_u32(volume, folder.volume),
        year: first_some_i32(year, folder.year),
        total,
        owned,
        missing,
        tagged,
        untagged: records.len() - tagged,
        guessed,
    }
}

/* ---------- Laws ---------- */

/// The issues you have and the missing ones split the span of the series, from
/// the first issue you have to the last one expected: each number of it is in
/// exactly one of the two, and nothing outside it is in either.
pub proof fn lemma_owned_and_missing_split_the_span(owned: Seq<u32>, total: Option<u32>, missing: Seq<u32>)
    requires
        owned.len() > 0,
        increasing(owned),
        forall|x: u32| missing.contains(x) <==> is_missing(owned, total, x),
    ensures
        forall|x: u32| owned[0] <= x <= last_expected(owned, total) ==> (owned.contains(x) <==> !missing.contains(x)),
        forall|x: u32| owned.contains(x) ==> owned[0] <= x <= last_expected(owned, total),
        forall|x: u32| missing.contains(x) ==> owned[0] <= x <= last_expected(owned, total),
{
    assert forall|x: u32| owned.contains(x) implies owned[0] <= x <= last_expected(owned, total) by {
        let k = choose|k: int| 0 <= k < owned.len() && owned[k] == x;
        if k > 0 {
            assert(owned[0] < owned[k]);
        }
        if k < owned.len() - 1 {
            assert(owned[k] < owned[owned.len() - 1]);
        }
    }
}

/// Record `rec` carries metadata that declares a positive total of `c` issues.
pub open spec fn declares_total(rec: ComicRecord, c: i32) -> bool {
    &&& rec.meta is Some
    &&& rec.meta->0.count == Some(c)
    &&& c > 0
}

/// The total of a series is the highest positive count its metadata declares: it
/// is at least every count declared, it is one of them, and there is none when
/// no record declares one. An outdated count read first does not cut the series
/// short.
pub proof fn lemma_total_is_the_highest_declared(rs: Seq<ComicRecord>)
    ensures
        forall|k: int, c: i32| 0 <= k < rs.len() && #[trigger] declares_total(rs[k], c) ==> (declared_total(rs) matches Some(t)
            && t >= c),
        declared_total(rs) matches Some(t) ==> exists|k: int| 0 <= k < rs.len() && declares_total(#[trigger] rs[k], t as i32) && t <= i32::MAX,
        declared_total(rs) is None ==> forall|k: int, c: i32| 0 <= k < rs.len() ==> !#[trigger] declares_total(rs[k], c),
    decreases rs.len(),
{
    if rs.len() > 0 {
        let init = rs.drop_last();
        lemma_total_is_the_highest_declared(init);
        let last = rs.last();
        assert forall|k: int, c: i32| 0 <= k < rs.len() && #[trigger] declares_total(rs[k], c) implies (declared_total(rs) matches Some(t) && t >= c) by {
            if k < rs.len() - 1 {
                assert(init[k] == rs[k]);
                assert(declares_total(init[k], c));
            }
        }
        if declared_total(rs) is Some {
            let t = declared_total(rs)->0;
            if last.meta is Some && last.meta->0.count is Some && last.meta->0.count->0 > 0 && (declared_total(init) is None
                || declared_total(init)->0 < last.meta->0.count->0) {
                assert(declares_total(rs[rs.len() - 1], t as i32));
            } else {
                let k = choose|k: int| 0 <= k < init.len() && declares_total(#[trigger] init[k], t as i32) && t <= i32::MAX;
                assert(rs[k] == init[k]);
                assert(declares_total(rs[k], t as i32));
            }
        }
        if declared_total(rs) is None {
            assert forall|k: int, c: i32| 0 <= k < rs.len() implies !#[trigger] declares_total(rs[k], c) by {
                if k < rs.len() - 1 {
                    assert(init[k] == rs[k]);
                }
            }
        }
    }
}

} // verus!

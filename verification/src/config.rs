//! Settings and reading progress, as held in memory. Storing them (JSON files in
//! the system's configuration directory) is done by the caller.

use vstd::prelude::*;

verus! {

/// The settings.
pub struct AppConfig {
    /// The library open right now.
    pub library_root: Option<String>,
    /// Saved libraries, to switch between them without looking for the folder again.
    pub libraries: Vec<String>,
}

impl AppConfig {
    /// No library chosen, none saved.
    pub fn empty() -> (c: AppConfig)
        ensures
            c.library_root is None,
            c.libraries@.len() == 0,
    {
        AppConfig { library_root: None, libraries: Vec::new() }
    }
}

/// Reading state of one comic.
#[derive(Clone, Copy, Debug, PartialEq, Eq, Structural)]
pub struct ReadState {
    pub read: bool,
    /// Last page seen, to resume where the reader left off.
    pub last_page: usize,
}

impl Default for ReadState {
    fn default() -> (r: ReadState)
        ensures
            r == unread(),
    {
        ReadState { read: false, last_page: 0 }
    }
}

/// The state of a comic that has no entry yet.
pub open spec fn unread() -> ReadState {
    ReadState { read: false, last_page: 0 }
}

/// The state of `path` in `m`, or the state of an unread comic.
pub open spec fn state_in(m: Map<Seq<char>, ReadState>, path: Seq<char>) -> ReadState {
    if m.contains_key(path) {
        m[path]
    } else {
        unread()
    }
}

/// The state after marking a comic read or unread. Marking it unread takes it
/// back to the start: whoever unmarks a comic wants to read it again.
pub open spec fn marked(old: ReadState, read: bool) -> ReadState {
    ReadState { read, last_page: if read { old.last_page } else { 0 } }
}

/// The progress map after marking one comic.
pub open spec fn mark_one(m: Map<Seq<char>, ReadState>, path: Seq<char>, read: bool) -> Map<Seq<char>, ReadState> {
    m.insert(path, marked(state_in(m, path), read))
}

/// The progress map after marking each of `paths` in turn.
pub open spec fn mark_all(m: Map<Seq<char>, ReadState>, paths: Seq<Seq<char>>, read: bool) -> Map<Seq<char>, ReadState>
    decreases paths.len(),
{
    if paths.len() == 0 {
        m
    } else {
        mark_one(mark_all(m, paths.drop_last(), read), paths.last(), read)
    }
}

/// The state after reaching page `page` of `total`: the last page seen moves,
/// and reaching the last page marks the comic read.
pub open spec fn advanced(old: ReadState, page: usize, total: usize) -> ReadState {
    ReadState { read: old.read || (total > 0 && page + 1 >= total), last_page: page }
}

/// The map an association list stands for; later entries win.
pub open spec fn entries_map(s: Seq<(String, ReadState)>) -> Map<Seq<char>, ReadState>
    decreases s.len(),
{
    if s.len() == 0 {
        Map::empty()
    } else {
        entries_map(s.drop_last()).insert(s.last().0@, s.last().1)
    }
}

/// Reading progress of the library, by comic path.
///
/// The map is held as a list of pairs whose paths are kept distinct (the type
/// invariant) rather than as a `HashMap<String, ReadState>`: the verifier's
/// standard library gives a `HashMap` keyed by `String` no specification that a
/// proof can use, while a list of pairs with distinct keys is exactly a finite
/// map. Entry order carries no meaning; the view is the map.
pub struct Progress {
    entries: Vec<(String, ReadState)>,
}

impl Progress {
    /// Each path occurs once.
    #[verifier::type_invariant]
    spec fn distinct_paths(&self) -> bool {
        forall|i: int, j: int|
            0 <= i < j < self.entries@.len() ==> (#[trigger] self.entries@[i]).0@ != (
            #[trigger] self.entries@[j]).0@
    }

    /// The map from comic path to its state.
    pub closed spec fn map(&self) -> Map<Seq<char>, ReadState> {
        entries_map(self.entries@)
    }
}

proof fn lemma_entries_map_domain(s: Seq<(String, ReadState)>)
    ensures
        forall|k: Seq<char>| entries_map(s).contains_key(k) <==> exists|i: int| 0 <= i < s.len() && (#[trigger] s[i]).0@ == k,
    decreases s.len(),
{
    if s.len() > 0 {
        lemma_entries_map_domain(s.drop_last());
        assert forall|k: Seq<char>| entries_map(s).contains_key(k) implies exists|i: int| 0 <= i < s.len() && (#[trigger] s[i]).0@ == k by {
            if k != s.last().0@ {
                assert(entries_map(s.drop_last()).contains_key(k));
                let i = choose|i: int| 0 <= i < s.drop_last().len() && (#[trigger] s.drop_last()[i]).0@ == k;
                assert(s[i] == s.drop_last()[i]);
            } else {
                assert(s[s.len() - 1].0@ == k);
            }
        }
        assert forall|k: Seq<char>| (exists|i: int| 0 <= i < s.len() && (#[trigger] s[i]).0@ == k) implies entries_map(s).contains_key(k) by {
            let i = choose|i: int| 0 <= i < s.len() && (#[trigger] s[i]).0@ == k;
            if i < s.len() - 1 {
                assert(s.drop_last()[i] == s[i]);
                assert(0 <= i < s.drop_last().len() && s.drop_last()[i].0@ == k);
                assert(entries_map(s.drop_last()).contains_key(k));
            }
        }
    }
}

/// With distinct paths, the entry at `i` is what the map holds for its path.
proof fn lemma_entries_map_at(s: Seq<(String, ReadState)>, i: int)
    requires
        0 <= i < s.len(),
        forall|a: int, b: int| 0 <= a < b < s.len() ==> (#[trigger] s[a]).0@ != (#[trigger] s[b]).0@,
    ensures
        entries_map(s).contains_key(s[i].0@),
        entries_map(s)[s[i].0@] == s[i].1,
    decreases s.len(),
{
    if i < s.len() - 1 {
        lemma_entries_map_at(s.drop_last(), i);
        assert(s.drop_last()[i] == s[i]);
        assert(s[i].0@ != s[s.len() - 1].0@);
    }
}

/// Replacing the entry at `i` by one of the same path updates that path only.
proof fn lemma_entries_map_update(s: Seq<(String, ReadState)>, i: int, st: ReadState)
    requires
        0 <= i < s.len(),
        forall|a: int, b: int| 0 <= a < b < s.len() ==> (#[trigger] s[a]).0@ != (#[trigger] s[b]).0@,
    ensures
        entries_map(s.update(i, (s[i].0, st))) == entries_map(s).insert(s[i].0@, st),
    decreases s.len(),
{
    let t = s.update(i, (s[i].0, st));
    if i == s.len() - 1 {
        assert(t.drop_last() =~= s.drop_last());
        assert(entries_map(t) =~= entries_map(s).insert(s[i].0@, st));
    } else {
        lemma_entries_map_update(s.drop_last(), i, st);
        assert(t.drop_last() =~= s.drop_last().update(i, (s[i].0, st)));
        assert(s[i].0@ != s[s.len() - 1].0@);
        assert(entries_map(t) =~= entries_map(s).insert(s[i].0@, st));
    }
}

impl View for Progress {
    type V = Map<Seq<char>, ReadState>;

    open spec fn view(&self) -> Map<Seq<char>, ReadState> {
        self.map()
    }
}

impl Progress {
    /// No comic read yet.
    pub fn new() -> (p: Progress)
        ensures
            p@ == Map::<Seq<char>, ReadState>::empty(),
    {
        Progress { entries: Vec::new() }
    }

    /// Position of the entry for `path`.
    fn find(&self, path: &String) -> (r: Option<usize>)
        ensures
            r matches Some(i) ==> i < self.entries@.len() && self.entries@[i as int].0@ == path@,
            r is None ==> !self@.contains_key(path@),
    {
        proof {
            lemma_entries_map_domain(self.entries@);
        }
        let mut i: usize = 0;
        while i < self.entries.len()
            invariant
                i <= self.entries@.len(),
                forall|k: int| 0 <= k < i ==> (#[trigger] self.entries@[k]).0@ != path@,
            decreases self.entries.len() - i,
        {
            if self.entries[i].0 == *path {
                return Some(i);
            }
            i = i + 1;
        }
        None
    }

    /// The state of a comic, if it has one.
    pub fn get(&self, path: &String) -> (r: Option<ReadState>)
        ensures
            r == (if self@.contains_key(path@) {
                Some(self@[path@])
            } else {
                None::<ReadState>
            }),
    {
        proof {
            use_type_invariant(self);
        }
        match self.find(path) {
            Some(i) => {
                proof {
                    lemma_entries_map_at(self.entries@, i as int);
                }
                Some(self.entries[i].1)
            },
            None => None,
        }
    }

    /// Sets the state of one comic.
    fn put(&mut self, path: String, st: ReadState)
        ensures
            final(self)@ == old(self)@.insert(path@, st),
    {
        proof {
            use_type_invariant(&*self);
        }
        let found: Option<usize> = self.find(&path);
        let mut entries: Vec<(String, ReadState)> = Vec::new();
        std::mem::swap(&mut entries, &mut self.entries);
        let ghost old_entries = entries@;
        match found {
            Some(i) => {
                let key: String = entries[i].0.clone();
                entries.set(i, (key, st));
                proof {
                    lemma_entries_map_update(old_entries, i as int, st);
                    assert(entries@ =~= old_entries.update(i as int, (old_entries[i as int].0, st)));
                }
            },
            None => {
                proof {
                    lemma_entries_map_domain(old_entries);
                }
                entries.push((path, st));
                assert(entries@.drop_last() =~= old_entries);
            },
        }
        self.entries = entries;
    }

    /// The state of a comic, or that of an unread one.
    fn state_of(&self, path: &String) -> (r: ReadState)
        ensures
            r == state_in(self@, path@),
    {
        match self.get(path) {
            Some(st) => st,
            None => ReadState { read: false, last_page: 0 },
        }
    }

    /// Marks or unmarks a comic as read. Unmarking it takes it back to the first page.
    pub fn set_read(&mut self, path: String, read: bool)
        ensures
            final(self)@ == mark_one(old(self)@, path@, read),
    {
        let old_st: ReadState = self.state_of(&path);
        let st = ReadState { read, last_page: if read { old_st.last_page } else { 0 } };
        self.put(path, st);
    }

    /// Marks or unmarks every comic of a list, in one go.
    pub fn set_many_read(&mut self, paths: Vec<String>, read: bool)
        ensures
            final(self)@ == mark_all(old(self)@, paths@.map_values(|p: String| p@), read),
    {
        let ghost start = self@;
        let ghost pv = paths@.map_values(|p: String| p@);
        let mut paths = paths;
        let mut rev: Vec<String> = Vec::new();
        while paths.len() > 0
            invariant
                pv.len() == paths.len() + rev.len(),
                forall|k: int| 0 <= k < paths.len() ==> (#[trigger] paths@[k])@ == pv[k],
                forall|k: int| 0 <= k < rev.len() ==> (#[trigger] rev@[k])@ == pv[pv.len() - 1 - k],
            decreases paths.len(),
        {
            let p: String = paths.pop().unwrap();
            rev.push(p);
        }
        assert(pv.take(0) =~= Seq::<Seq<char>>::empty());
        while rev.len() > 0
            invariant
                rev.len() <= pv.len(),
                forall|k: int| 0 <= k < rev.len() ==> (#[trigger] rev@[k])@ == pv[pv.len() - 1 - k],
                self@ == mark_all(start, pv.take(pv.len() - rev.len()), read),
            decreases rev.len(),
        {
            let p: String = rev.pop().unwrap();
            let ghost done = pv.len() - rev.len() - 1;
            assert(p@ == pv[done]);
            self.set_read(p, read);
            assert(pv.take(done + 1).drop_last() =~= pv.take(done));
            assert(pv.take(done + 1).last() == pv[done]);
        }
        assert(pv.take(pv.len() as int) =~= pv);
    }

    /// Records the page reached. On reaching the last page the comic is marked
    /// read, which is what finishing it means. Returns whether it is read now.
    pub fn set_progress(&mut self, path: String, page: usize, total: usize) -> (r: bool)
        ensures
            final(self)@ == old(self)@.insert(path@, advanced(state_in(old(self)@, path@), page, total)),
            r == advanced(state_in(old(self)@, path@), page, total).read,
            final(self)@[path@].last_page == page,
            !state_in(old(self)@, path@).read && page + 1 < total ==> !r && !final(self)@[path@].read,
            total > 0 && page + 1 >= total ==> r && final(self)@[path@].read,
            state_in(old(self)@, path@).read ==> r,
    {
        proof {
            lemma_reading_marks_read_only_at_the_end(state_in(self@, path@), page, total);
        }
        let old_st: ReadState = self.state_of(&path);
        let reached_end: bool = total > 0 && page >= total - 1;
        let st = ReadState { read: old_st.read || reached_end, last_page: page };
        self.put(path, st);
        st.read
    }

    /// A copy of the map, as a list of entries with distinct paths.
    pub fn entries(&self) -> (r: Vec<(String, ReadState)>)
        ensures
            entries_map(r@) == self@,
            forall|i: int, j: int| 0 <= i < j < r@.len() ==> (#[trigger] r@[i]).0@ != (#[trigger] r@[j]).0@,
    {
        proof {
            use_type_invariant(self);
        }
        let mut out: Vec<(String, ReadState)> = Vec::new();
        let mut i: usize = 0;
        while i < self.entries.len()
            invariant
                i <= self.entries@.len(),
                out@ == self.entries@.take(i as int),
            decreases self.entries.len() - i,
        {
            let key: String = self.entries[i].0.clone();
            out.push((key, self.entries[i].1));
            i = i + 1;
            assert(out@ =~= self.entries@.take(i as int));
        }
        assert(out@ =~= self.entries@);
        out
    }

    /// The progress held by a list of entries; for a path listed twice, the later entry counts.
    pub fn from_entries(list: Vec<(String, ReadState)>) -> (p: Progress)
        ensures
            p@ == entries_map(list@),
    {
        let ghost all = list@;
        let mut p = Progress::new();
        let mut i: usize = 0;
        assert(all.take(0) =~= Seq::<(String, ReadState)>::empty());
        let mut list = list;
        let mut rev: Vec<(String, ReadState)> = Vec::new();
        while list.len() > 0
            invariant
                all.len() == list.len() + rev.len(),
                forall|k: int| 0 <= k < list.len() ==> #[trigger] list@[k] == all[k],
                forall|k: int| 0 <= k < rev.len() ==> #[trigger] rev@[k] == all[all.len() - 1 - k],
            decreases list.len(),
        {
            let e = list.pop().unwrap();
            rev.push(e);
        }
        while rev.len() > 0
            invariant
                rev.len() <= all.len(),
                forall|k: int| 0 <= k < rev.len() ==> #[trigger] rev@[k] == all[all.len() - 1 - k],
                p@ == entries_map(all.take(all.len() - rev.len())),
            decreases rev.len(),
        {
            let e = rev.pop().unwrap();
            let ghost done = all.len() - rev.len() - 1;
            assert(e == all[done]);
            p.put(e.0, e.1);
            assert(all.take(done + 1).drop_last() =~= all.take(done));
        }
        assert(all.take(all.len() as int) =~= all);
        p
    }
}

/* ---------- Laws ---------- */

/// Marking a list of comics leaves each listed comic marked, its page kept only
/// when marked read (and reset when unmarked), and every other comic as it was.
pub proof fn lemma_mark_all(m: Map<Seq<char>, ReadState>, paths: Seq<Seq<char>>, read: bool)
    ensures
        forall|k: Seq<char>| #[trigger] paths.contains(k) ==> mark_all(m, paths, read).contains_key(k)
            && mark_all(m, paths, read)[k] == marked(state_in(m, k), read),
        forall|k: Seq<char>| !paths.contains(k) ==> #[trigger] state_in(mark_all(m, paths, read), k)
            == state_in(m, k) && (mark_all(m, paths, read).contains_key(k) <==> m.contains_key(k)),
    decreases paths.len(),
{
    if paths.len() > 0 {
        let init = paths.drop_last();
        lemma_mark_all(m, init, read);
        let last = paths.last();
        assert forall|k: Seq<char>| #[trigger] paths.contains(k) implies mark_all(m, paths, read).contains_key(k)
            && mark_all(m, paths, read)[k] == marked(state_in(m, k), read) by {
            let mi = mark_all(m, init, read);
            assert(mark_all(m, paths, read) == mark_one(mi, last, read));
            if k != last {
                let i = choose|i: int| 0 <= i < paths.len() && paths[i] == k;
                assert(i != paths.len() - 1);
                assert(init[i] == k);
                assert(init.contains(k));
            } else if init.contains(k) {
                assert(mi.contains_key(k));
                assert(state_in(mi, k) == marked(state_in(m, k), read));
            } else {
                assert(state_in(mi, k) == state_in(m, k));
            }
        }
        assert forall|k: Seq<char>| !paths.contains(k) implies #[trigger] state_in(mark_all(m, paths, read), k)
            == state_in(m, k) && (mark_all(m, paths, read).contains_key(k) <==> m.contains_key(k)) by {
            assert(paths[paths.len() - 1] == last);
            if init.contains(k) {
                let i = choose|i: int| 0 <= i < init.len() && init[i] == k;
                assert(paths[i] == k);
            }
            assert(k != last);
            assert(!init.contains(k));
            let mi = mark_all(m, init, read);
            assert(mark_all(m, paths, read) == mark_one(mi, last, read));
            assert(mark_one(mi, last, read).contains_key(k) == mi.contains_key(k));
            assert(state_in(mark_one(mi, last, read), k) == state_in(mi, k));
        }
    }
}

/// Marking a comic twice the same way is the same as marking it once.
pub proof fn lemma_mark_one_idempotent(m: Map<Seq<char>, ReadState>, path: Seq<char>, read: bool)
    ensures
        mark_one(mark_one(m, path, read), path, read) == mark_one(m, path, read),
{
    assert(mark_one(mark_one(m, path, read), path, read) =~= mark_one(m, path, read));
}

/// After unmarking, a comic opens at its first page; after reaching the last
/// page of a comic, it reads as read.
pub proof fn lemma_progress_resets_and_completes(m: Map<Seq<char>, ReadState>, path: Seq<char>, page: usize, total: usize)
    requires
        total > 0,
        page + 1 >= total,
    ensures
        state_in(mark_one(m, path, false), path) == unread(),
        state_in(m.insert(path, advanced(state_in(m, path), page, total)), path).read,
{
}

/// Recording the page reached moves the last page seen to it, marks the comic
/// read exactly when that page is its last one (or it was read already), and
/// never marks an unread comic read before its last page.
pub proof fn lemma_reading_marks_read_only_at_the_end(before: ReadState, page: usize, total: usize)
    ensures
        advanced(before, page, total).last_page == page,
        !before.read && page + 1 < total ==> !advanced(before, page, total).read,
        total > 0 && page + 1 >= total ==> advanced(before, page, total).read,
        before.read ==> advanced(before, page, total).read,
        !before.read && total == 0 ==> !advanced(before, page, total).read,
{
}

} // verus!

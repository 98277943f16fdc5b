//! The cache: what was read out of session files, kept until the files change.

use vstd::hash_map::StringHashMap;
use vstd::prelude::*;

use crate::path;
use crate::session::Session;
use crate::table::{self, Entry, Table};
use crate::text;
use crate::time::{self, Timestamp};

verus! {

/// A file as it is on disk: where it is, how long, and when it last changed.
#[derive(Debug, PartialEq, Eq)]
pub struct Stamped {
    pub path: String,
    pub len: u64,
    pub modified_ms: i64,
}

impl Clone for Stamped {
    fn clone(&self) -> (r: Stamped)
        ensures
            r == *self,
    {
        Stamped { path: self.path.clone(), len: self.len, modified_ms: self.modified_ms }
    }
}

/// The length of a file and the time it last changed in milliseconds, where that
/// time can be told.
pub open spec fn stamp_of(len: u64, modified: Option<i128>) -> Option<(u64, int)> {
    match modified {
        Some(nanosecond) => if time::in_range(nanosecond as int) {
            Some((len, time::whole(nanosecond as int, time::MILLISECOND as int)))
        } else {
            None
        },
        None => None,
    }
}

/// The length of a file and the time it last changed, in milliseconds from the
/// Unix epoch. `modified` is that time in nanoseconds, where the system tells
/// it; there is no stamp without it, nor where it is out of range.
pub fn stamp(len: u64, modified: Option<i128>) -> (r: Option<(u64, i64)>)
    ensures
        r is Some <==> modified is Some && time::in_range(modified->0 as int),
        r matches Some((l, ms)) ==> l == len && ms == time::whole(
            modified->0 as int,
            time::MILLISECOND as int,
        ),
        r is Some <==> stamp_of(len, modified) is Some,
        r matches Some((l, ms)) ==> stamp_of(len, modified) == Some((l, ms as int)),
{
    match modified {
        Some(nanosecond) => match Timestamp::from_nanosecond(nanosecond) {
            Some(t) => Some((len, t.as_millisecond())),
            None => None,
        },
        None => None,
    }
}

/// What the cache keeps on disk.
pub struct Store {
    pub sessions: Table<Option<Session>>,
    pub titles: Table<Option<String>>,
}

/// What was read out of session files.
pub struct Cache {
    /// Where the cache is kept; nowhere where `None`.
    path: Option<String>,
    store: Store,
    /// The paths asked for since the cache was last saved.
    accessed: StringHashMap<()>,
    /// Whether the store differs from what is on disk.
    dirty: bool,
}

/// The contents of a [`Cache`].
pub ghost struct CacheView {
    pub path: Option<String>,
    pub sessions: Map<Seq<char>, Entry<Option<Session>>>,
    pub titles: Map<Seq<char>, Entry<Option<String>>>,
    pub accessed: Set<Seq<char>>,
    pub dirty: bool,
}

impl View for Cache {
    type V = CacheView;

    closed spec fn view(&self) -> CacheView {
        CacheView {
            path: self.path,
            sessions: self.store.sessions@,
            titles: self.store.titles@,
            accessed: self.accessed@.dom(),
            dirty: self.dirty,
        }
    }
}

/// Whether something is remembered of the file as it is.
pub open spec fn is_hit<T>(entries: Map<Seq<char>, Entry<T>>, file: Stamped) -> bool {
    &&& entries.contains_key(file.path@)
    &&& entries[file.path@].len == file.len
    &&& entries[file.path@].modified_ms == file.modified_ms
}

/// The sessions remembered of `files`, in order.
pub open spec fn found(
    entries: Map<Seq<char>, Entry<Option<Session>>>,
    files: Seq<Stamped>,
) -> Seq<Session>
    decreases files.len(),
{
    if files.len() == 0 {
        seq![]
    } else {
        let earlier = found(entries, files.drop_last());
        if is_hit(entries, files.last()) && entries[files.last().path@].value is Some {
            earlier.push(entries[files.last().path@].value->0)
        } else {
            earlier
        }
    }
}

/// The positions of the files of which nothing is remembered, in order.
pub open spec fn missed<T>(entries: Map<Seq<char>, Entry<T>>, files: Seq<Stamped>) -> Seq<usize>
    decreases files.len(),
{
    if files.len() == 0 {
        seq![]
    } else {
        let earlier = missed(entries, files.drop_last());
        if is_hit(entries, files.last()) {
            earlier
        } else {
            earlier.push((files.len() - 1) as usize)
        }
    }
}

/// The paths of `files`.
pub open spec fn paths(files: Seq<Stamped>) -> Set<Seq<char>>
    decreases files.len(),
{
    if files.len() == 0 {
        Set::empty()
    } else {
        paths(files.drop_last()).insert(files.last().path@)
    }
}

/// What a file that was read gets remembered as.
pub open spec fn entry_of<T>(file: Stamped, value: T) -> Entry<T> {
    Entry { len: file.len, modified_ms: file.modified_ms, value }
}

/// The entries once the files in `parsed` are remembered too, each with what
/// was read out of it.
pub open spec fn remembered<T>(
    entries: Map<Seq<char>, Entry<T>>,
    parsed: Seq<(Stamped, T)>,
) -> Map<Seq<char>, Entry<T>>
    decreases parsed.len(),
{
    if parsed.len() == 0 {
        entries
    } else {
        remembered(entries, parsed.drop_last()).insert(
            parsed.last().0.path@,
            entry_of(parsed.last().0, parsed.last().1),
        )
    }
}

/// The sessions read out of files, in order.
pub open spec fn read_out(parsed: Seq<(Stamped, Option<Session>)>) -> Seq<Session>
    decreases parsed.len(),
{
    if parsed.len() == 0 {
        seq![]
    } else {
        match parsed.last().1 {
            Some(session) => read_out(parsed.drop_last()).push(session),
            None => read_out(parsed.drop_last()),
        }
    }
}

/// The title remembered of a file, `None` where it has to be read.
pub open spec fn known_title(
    titles: Map<Seq<char>, Entry<Option<String>>>,
    file: Stamped,
) -> Option<Option<String>> {
    if is_hit(titles, file) {
        Some(titles[file.path@].value)
    } else {
        None
    }
}

/// The cache once a file was asked for.
pub open spec fn asked(cache: CacheView, path: Seq<char>) -> CacheView {
    CacheView { accessed: cache.accessed.insert(path), ..cache }
}

/// The cache once the title in a file, or that there is none, was read.
pub open spec fn with_title(cache: CacheView, file: Stamped, title: Option<String>) -> CacheView {
    CacheView {
        titles: cache.titles.insert(file.path@, entry_of(file, title)),
        dirty: true,
        ..cache
    }
}

/// The cache as it is once it was loaded.
pub open spec fn loaded(
    path: Option<String>,
    sessions: Map<Seq<char>, Entry<Option<Session>>>,
    titles: Map<Seq<char>, Entry<Option<String>>>,
) -> CacheView {
    CacheView { path, sessions, titles, accessed: Set::empty(), dirty: false }
}

/// Where the cache is kept, from the directory for temporary files.
pub open spec fn kept_at(temp_dir: Seq<char>) -> Seq<char> {
    path::joined(temp_dir, "ap/sessions.json"@)
}

/// Whether something is remembered of a path that was not asked for.
pub open spec fn is_unvisited(cache: CacheView, path: Seq<char>) -> bool {
    !cache.accessed.contains(path) && (cache.sessions.contains_key(path) || cache.titles.contains_key(
        path,
    ))
}

/// Whether the entry is of the file as it is.
fn fits<T>(entry: &Entry<T>, file: &Stamped) -> (r: bool)
    ensures
        r <==> entry.len == file.len && entry.modified_ms == file.modified_ms,
{
    entry.len == file.len && entry.modified_ms == file.modified_ms
}

impl Cache {
    /// The cache kept at `path`, with what was found there.
    pub fn load(path: Option<String>, store: Option<Store>) -> (r: Cache)
        ensures
            r@.path == path,
            store matches Some(s) ==> r@.sessions == s.sessions@ && r@.titles == s.titles@,
            store is None ==> r@.sessions == Map::<Seq<char>, Entry<Option<Session>>>::empty()
                && r@.titles == Map::<Seq<char>, Entry<Option<String>>>::empty(),
            r@.accessed == Set::<Seq<char>>::empty(),
            !r@.dirty,
            store matches Some(s) ==> r@ == loaded(path, s.sessions@, s.titles@),
            store is None ==> r@ == loaded(path, Map::empty(), Map::empty()),
    {
        let store = match store {
            Some(store) => store,
            None => Store { sessions: Table::new(), titles: Table::new() },
        };
        Cache { path, store, accessed: StringHashMap::new(), dirty: false }
    }

    /// Where the cache is kept, from the directory for temporary files.
    pub fn default_path(temp_dir: &str) -> (r: String)
        ensures
            r@ == path::joined(temp_dir@, "ap/sessions.json"@),
            r@ == kept_at(temp_dir@),
    {
        path::join(temp_dir, "ap/sessions.json")
    }

    /// What is to be kept on disk.
    pub fn store(&self) -> (r: &Store)
        ensures
            r.sessions@ == self@.sessions,
            r.titles@ == self@.titles,
    {
        &self.store
    }

    /// Looks `files` up: the sessions remembered of them, and the positions of
    /// the files that have to be read.
    pub fn lookup_sessions(&mut self, files: &Vec<Stamped>) -> (r: (Vec<Session>, Vec<usize>))
        ensures
            r.0@ == found(old(self)@.sessions, files@),
            r.1@ == missed(old(self)@.sessions, files@),
            final(self)@ == (CacheView {
                accessed: old(self)@.accessed.union(paths(files@)),
                ..old(self)@
            }),
    {
        let ghost before = self@;
        let mut sessions: Vec<Session> = Vec::new();
        let mut misses: Vec<usize> = Vec::new();
        let mut i: usize = 0;
        assert(files@.take(0) =~= seq![]);
        assert(before.accessed.union(paths(files@.take(0))) =~= before.accessed);
        while i < files.len()
            invariant
                i <= files.len(),
                sessions@ == found(before.sessions, files@.take(i as int)),
                misses@ == missed(before.sessions, files@.take(i as int)),
                self@ == (CacheView {
                    accessed: before.accessed.union(paths(files@.take(i as int))),
                    ..before
                }),
            decreases files.len() - i,
        {
            let file = &files[i];
            proof {
                assert(files@.take(i + 1).drop_last() =~= files@.take(i as int));
                assert(files@.take(i + 1).last() == files@[i as int]);
            }
            self.accessed.insert(file.path.clone(), ());
            assert(self@.accessed =~= before.accessed.union(paths(files@.take(i + 1))));
            let hit = match self.store.sessions.get(file.path.as_str()) {
                Some(entry) => {
                    if fits(entry, file) {
                        if let Some(session) = &entry.value {
                            sessions.push(session.clone());
                        }
                        true
                    } else {
                        false
                    }
                },
                None => false,
            };
            if !hit {
                misses.push(i);
            }
            i += 1;
        }
        assert(files@.take(i as int) =~= files@);
        (sessions, misses)
    }

    /// Remembers what was read out of files, and adds the sessions among it to
    /// `sessions`.
    pub fn store_sessions(
        &mut self,
        parsed: Vec<(Stamped, Option<Session>)>,
        sessions: Vec<Session>,
    ) -> (r: Vec<Session>)
        ensures
            r@ == sessions@ + read_out(parsed@),
            final(self)@ == (CacheView {
                sessions: remembered(old(self)@.sessions, parsed@),
                dirty: old(self)@.dirty || parsed@.len() > 0,
                ..old(self)@
            }),
    {
        let ghost before = self@;
        let ghost all = parsed@;
        let mut out = sessions;
        if parsed.len() > 0 {
            self.dirty = true;
        }
        let ghost dirty = self@.dirty;
        let mut rest = table::reverse(parsed);
        assert(all.take(0) =~= seq![]);
        assert(out@ =~= sessions@ + read_out(all.take(0)));
        while rest.len() > 0
            invariant
                rest.len() <= all.len(),
                rest@ == all.reverse().take(rest.len() as int),
                out@ == sessions@ + read_out(all.take(all.len() - rest.len())),
                self@ == (CacheView {
                    sessions: remembered(before.sessions, all.take(all.len() - rest.len())),
                    dirty,
                    ..before
                }),
            decreases rest.len(),
        {
            let ghost left = rest@;
            let ghost done = all.len() - left.len();
            if let Some((file, value)) = rest.pop() {
                proof {
                    assert(left.last() == all[done]);
                    assert(all.take(done + 1).drop_last() =~= all.take(done));
                    assert(all.take(done + 1).last() == all[done]);
                    assert(rest@ =~= all.reverse().take(rest.len() as int));
                }
                if let Some(session) = &value {
                    out.push(session.clone());
                }
                assert(out@ =~= sessions@ + read_out(all.take(done + 1)));
                let entry = Entry { len: file.len, modified_ms: file.modified_ms, value };
                self.store.sessions.insert(file.path, entry);
            }
        }
        assert(all.take(all.len() as int) =~= all);
        out
    }

    /// The sessions of `files`: those remembered of files that have not
    /// changed, and then those that `parse` reads out of the others, which are
    /// remembered from then on, also where there was nothing to read out.
    pub fn sessions(
        &mut self,
        files: &Vec<Stamped>,
        parse: impl Fn(&String) -> Option<Session>,
    ) -> (r: Vec<Session>)
        requires
            forall|i: int|
                0 <= i < files@.len() && !is_hit(old(self)@.sessions, #[trigger] files@[i])
                    ==> call_requires(parse, (&files@[i].path,)),
        ensures
            exists|parsed: Seq<(Stamped, Option<Session>)>|
                {
                    let misses = missed(old(self)@.sessions, files@);
                    &&& parsed.len() == misses.len()
                    &&& forall|k: int|
                        0 <= k < parsed.len() ==> (#[trigger] parsed[k]).0 == files@[misses[k] as int]
                            && call_ensures(parse, (&parsed[k].0.path,), parsed[k].1)
                    &&& r@ == found(old(self)@.sessions, files@) + read_out(parsed)
                    &&& final(self)@ == #[trigger] after_sessions(old(self)@, files@, parsed)
                },
    {
        let ghost before = self@;
        let (known, misses) = self.lookup_sessions(files);
        let mut parsed: Vec<(Stamped, Option<Session>)> = Vec::new();
        let mut k: usize = 0;
        proof {
            assert(files@.len() == files.len());
            lemma_missed_positions(before.sessions, files@);
        }
        while k < misses.len()
            invariant
                k <= misses.len(),
                misses@ == missed(before.sessions, files@),
                forall|j: int|
                    0 <= j < misses@.len() ==> (#[trigger] misses@[j] as int) < files@.len() && !is_hit(
                        before.sessions,
                        files@[misses@[j] as int],
                    ),
                forall|i: int|
                    0 <= i < files@.len() && !is_hit(before.sessions, #[trigger] files@[i])
                        ==> call_requires(parse, (&files@[i].path,)),
                parsed.len() == k,
                forall|j: int|
                    0 <= j < k ==> (#[trigger] parsed@[j]).0 == files@[misses@[j] as int] && call_ensures(
                        parse,
                        (&parsed@[j].0.path,),
                        parsed@[j].1,
                    ),
            decreases misses.len() - k,
        {
            let file = files[misses[k]].clone();
            let value = parse(&file.path);
            parsed.push((file, value));
            k += 1;
        }
        let ghost read = parsed@;
        let out = self.store_sessions(parsed, known);
        assert(self@ == after_sessions(before, files@, read));
        out
    }

    /// Looks a file up: the title remembered of it, `None` where it has to be read.
    pub fn lookup_title(&mut self, file: &Stamped) -> (r: Option<Option<String>>)
        ensures
            r == if is_hit(old(self)@.titles, *file) {
                Some(old(self)@.titles[file.path@].value)
            } else {
                None
            },
            final(self)@ == (CacheView {
                accessed: old(self)@.accessed.insert(file.path@),
                ..old(self)@
            }),
            r == known_title(old(self)@.titles, *file),
            final(self)@ == asked(old(self)@, file.path@),
    {
        self.accessed.insert(file.path.clone(), ());
        assert(self@.accessed =~= old(self)@.accessed.insert(file.path@));
        match self.store.titles.get(file.path.as_str()) {
            Some(entry) => {
                if fits(entry, file) {
                    Some(text::copy_text(&entry.value))
                } else {
                    None
                }
            },
            None => None,
        }
    }

    /// Remembers the title read out of a file, or that there was none.
    pub fn store_title(&mut self, file: Stamped, value: Option<String>) -> (r: Option<String>)
        ensures
            r == value,
            final(self)@ == (CacheView {
                titles: old(self)@.titles.insert(file.path@, entry_of(file, value)),
                dirty: true,
                ..old(self)@
            }),
            final(self)@ == with_title(old(self)@, file, value),
    {
        self.dirty = true;
        let entry = Entry {
            len: file.len,
            modified_ms: file.modified_ms,
            value: text::copy_text(&value),
        };
        self.store.titles.insert(file.path, entry);
        value
    }

    /// The title of the file at `path`: the one remembered where the file has
    /// not changed, and otherwise the one that `parse` reads out of it, which is
    /// remembered from then on. Nothing is read or remembered of a file without
    /// a stamp.
    pub fn title(
        &mut self,
        path: &String,
        stamp: Option<(u64, i64)>,
        parse: impl Fn(&String) -> Option<String>,
    ) -> (r: Option<String>)
        requires
            stamp matches Some((len, modified_ms)) ==> is_hit(
                old(self)@.titles,
                Stamped { path: *path, len, modified_ms },
            ) || call_requires(parse, (path,)),
        ensures
            match stamp {
                None => r is None && final(self)@ == old(self)@,
                Some((len, modified_ms)) => {
                    let file = Stamped { path: *path, len, modified_ms };
                    let accessed = old(self)@.accessed.insert(path@);
                    if is_hit(old(self)@.titles, file) {
                        &&& r == old(self)@.titles[path@].value
                        &&& final(self)@ == (CacheView { accessed, ..old(self)@ })
                    } else {
                        &&& call_ensures(parse, (path,), r)
                        &&& final(self)@ == (CacheView {
                            accessed,
                            titles: old(self)@.titles.insert(path@, entry_of(file, r)),
                            dirty: true,
                            ..old(self)@
                        })
                    }
                },
            },
            stamp matches Some((len, modified_ms)) ==> {
                let file = Stamped { path: *path, len, modified_ms };
                match known_title(old(self)@.titles, file) {
                    Some(title) => r == title && final(self)@ == asked(old(self)@, path@),
                    None => final(self)@ == with_title(asked(old(self)@, path@), file, r),
                }
            },
    {
        match stamp {
            None => None,
            Some((len, modified_ms)) => {
                let file = Stamped { path: path.clone(), len, modified_ms };
                match self.lookup_title(&file) {
                    Some(value) => value,
                    None => {
                        let value = parse(path);
                        self.store_title(file, value)
                    },
                }
            },
        }
    }

    /// The paths that something is remembered of, but that were not asked for
    /// since the cache was last saved.
    pub fn unvisited(&self) -> (r: Vec<String>)
        ensures
            forall|path: Seq<char>| #[trigger]
                text::contents(r@).contains(path) <==> (self@.sessions.contains_key(path)
                    || self@.titles.contains_key(path)) && !self@.accessed.contains(path),
            forall|path: Seq<char>| #[trigger]
                text::contents(r@).contains(path) <==> is_unvisited(self@, path),
    {
        let mut out: Vec<String> = Vec::new();
        assert(text::contents(out@) =~= seq![]);
        push_unvisited(&mut out, &self.store.sessions, &self.accessed);
        push_unvisited(&mut out, &self.store.titles, &self.accessed);
        out
    }

    /// Makes the store ready to be saved: forgets the files that are `gone`,
    /// unless they were asked for since the cache was last saved. Tells whether
    /// the store has to be written; a cache that is kept nowhere never has to.
    pub fn save(&mut self, gone: &Vec<String>) -> (r: bool)
        ensures
            old(self)@.path is None ==> !r && final(self)@ == old(self)@,
            old(self)@.path is Some ==> r == final(self)@.dirty && final(self)@ == pruned(
                old(self)@,
                text::contents(gone@).to_set(),
            ),
    {
        if self.path.is_none() {
            return false;
        }
        let ghost before = self@;
        let mut missing: StringHashMap<()> = StringHashMap::new();
        let mut i: usize = 0;
        while i < gone.len()
            invariant
                i <= gone.len(),
                forall|path: Seq<char>| #[trigger]
                    missing@.contains_key(path) <==> exists|j: int|
                        0 <= j < i && (#[trigger] gone@[j])@ == path,
            decreases gone.len() - i,
        {
            missing.insert(gone[i].clone(), ());
            i += 1;
        }
        proof {
            let set = text::contents(gone@).to_set();
            assert forall|path: Seq<char>| missing@.dom().contains(path) <==> set.contains(path) by {
                if missing@.contains_key(path) {
                    let j = choose|j: int| 0 <= j < gone@.len() && (#[trigger] gone@[j])@ == path;
                    assert(text::contents(gone@)[j] == path);
                }
                if set.contains(path) {
                    let j = choose|j: int|
                        0 <= j < text::contents(gone@).len() && text::contents(gone@)[j] == path;
                    assert(gone@[j]@ == path);
                    assert(missing@.contains_key(path));
                }
            }
            assert(missing@.dom() =~= set);
        }
        let mut accessed: StringHashMap<()> = StringHashMap::new();
        std::mem::swap(&mut self.accessed, &mut accessed);
        let sessions_changed = self.store.sessions.retain(&accessed, &missing);
        let titles_changed = self.store.titles.retain(&accessed, &missing);
        if sessions_changed || titles_changed {
            self.dirty = true;
        }
        assert(self@.accessed =~= Set::<Seq<char>>::empty());
        self.dirty
    }

    /// Takes note that the store is on disk as it is.
    pub fn saved(&mut self)
        ensures
            final(self)@ == (CacheView { dirty: false, ..old(self)@ }),
    {
        self.dirty = false;
    }
}

/// The cache after `files` were asked for and `parsed` was read.
pub open spec fn after_sessions(
    cache: CacheView,
    files: Seq<Stamped>,
    parsed: Seq<(Stamped, Option<Session>)>,
) -> CacheView {
    CacheView {
        accessed: cache.accessed.union(paths(files)),
        sessions: remembered(cache.sessions, parsed),
        dirty: cache.dirty || parsed.len() > 0,
        ..cache
    }
}

/// The cache once it has forgotten the files in `gone` that were not asked for.
pub open spec fn pruned(cache: CacheView, gone: Set<Seq<char>>) -> CacheView {
    let sessions = table::surviving(cache.sessions, cache.accessed, gone);
    let titles = table::surviving(cache.titles, cache.accessed, gone);
    CacheView {
        sessions,
        titles,
        accessed: Set::empty(),
        dirty: cache.dirty || sessions != cache.sessions || titles != cache.titles,
        ..cache
    }
}

/// Appends the paths of `entries` that are not in `accessed`.
fn push_unvisited<T>(out: &mut Vec<String>, entries: &Table<T>, accessed: &StringHashMap<()>)
    ensures
        forall|path: Seq<char>| #[trigger]
            text::contents(final(out)@).contains(path) <==> text::contents(old(out)@).contains(path)
                || entries@.contains_key(path) && !accessed@.contains_key(path),
{
    let ghost before = out@;
    let rows = entries.entries();
    let mut i: usize = 0;
    while i < rows.len()
        invariant
            i <= rows.len(),
            forall|path: Seq<char>| #[trigger]
                text::contents(out@).contains(path) <==> text::contents(before).contains(path) || exists|
                    j: int,
                |
                    0 <= j < i && (#[trigger] rows@[j]).0@ == path && !accessed@.contains_key(path),
        decreases rows.len() - i,
    {
        let ghost earlier = out@;
        if !accessed.contains_key(rows[i].0.as_str()) {
            out.push(rows[i].0.clone());
            proof {
                lemma_contents_push(earlier, rows@[i as int].0);
            }
        }
        i += 1;
    }
}

proof fn lemma_contents_push(texts: Seq<String>, text: String)
    ensures
        forall|path: Seq<char>| #[trigger]
            text::contents(texts.push(text)).contains(path) <==> text::contents(texts).contains(path)
                || path == text@,
{
    assert(text::contents(texts.push(text)) =~= text::contents(texts).push(text@));
    assert forall|path: Seq<char>| #[trigger]
        text::contents(texts.push(text)).contains(path) <==> text::contents(texts).contains(path)
            || path == text@ by {
        let all = text::contents(texts).push(text@);
        if text::contents(texts).contains(path) {
            let j = choose|j: int| 0 <= j < text::contents(texts).len() && text::contents(texts)[j] == path;
            assert(all[j] == path);
        }
        assert(all[all.len() - 1] == text@);
    }
}

proof fn lemma_missed_positions<T>(entries: Map<Seq<char>, Entry<T>>, files: Seq<Stamped>)
    requires
        files.len() <= usize::MAX,
    ensures
        forall|j: int|
            0 <= j < missed(entries, files).len() ==> (#[trigger] missed(entries, files)[j] as int)
                < files.len() && !is_hit(entries, files[missed(entries, files)[j] as int]),
    decreases files.len(),
{
    if files.len() > 0 {
        let shorter = files.drop_last();
        lemma_missed_positions(entries, shorter);
        assert forall|j: int| 0 <= j < missed(entries, files).len() implies (#[trigger] missed(
            entries,
            files,
        )[j] as int) < files.len() && !is_hit(entries, files[missed(entries, files)[j] as int]) by {
            if j < missed(entries, shorter).len() {
                let place = missed(entries, shorter)[j];
                assert(shorter[place as int] == files[place as int]);
            }
        }
    }
}

/// Whether `parsed` is what was read out of the files of which nothing was
/// remembered, in order.
pub open spec fn is_reading<T>(
    entries: Map<Seq<char>, Entry<T>>,
    files: Seq<Stamped>,
    parsed: Seq<(Stamped, T)>,
) -> bool {
    &&& parsed.len() == missed(entries, files).len()
    &&& forall|k: int|
        0 <= k < parsed.len() ==> (#[trigger] parsed[k]).0 == files[missed(entries, files)[k] as int]
}

/// Whether files at one path are like one another.
pub open spec fn is_consistent(files: Seq<Stamped>) -> bool {
    forall|i: int, j: int|
        0 <= i < files.len() && 0 <= j < files.len() && (#[trigger] files[i]).path@ == (
        #[trigger] files[j]).path@ ==> files[i].len == files[j].len && files[i].modified_ms
            == files[j].modified_ms
}

/// The files to be read are those that the cache knows nothing of, that have
/// another length, or that changed at another time.
pub proof fn law_changed_files_are_read<T>(
    entries: Map<Seq<char>, Entry<T>>,
    files: Seq<Stamped>,
    i: usize,
)
    requires
        files.len() <= usize::MAX,
        i < files.len(),
    ensures
        missed(entries, files).contains(i) <==> {
            ||| !entries.contains_key(files[i as int].path@)
            ||| entries[files[i as int].path@].len != files[i as int].len
            ||| entries[files[i as int].path@].modified_ms != files[i as int].modified_ms
        },
    decreases files.len(),
{
    lemma_missed_positions(entries, files);
    let all = missed(entries, files);
    let shorter = files.drop_last();
    let earlier = missed(entries, shorter);
    if all.contains(i) {
        let k = choose|k: int| 0 <= k < all.len() && all[k] == i;
        assert(!is_hit(entries, files[all[k] as int]));
    } else if i < shorter.len() {
        law_changed_files_are_read(entries, shorter, i);
        assert(shorter[i as int] == files[i as int]);
        if earlier.contains(i) {
            let k = choose|k: int| 0 <= k < earlier.len() && earlier[k] == i;
            assert(all[k] == i);
        }
    } else if !is_hit(entries, files.last()) {
        assert(all[all.len() - 1] == i);
    }
}

/// Once files have been read, asking for them again reads nothing, also where
/// nothing could be read out of them.
pub proof fn law_read_once<T>(
    entries: Map<Seq<char>, Entry<T>>,
    files: Seq<Stamped>,
    parsed: Seq<(Stamped, T)>,
)
    requires
        files.len() <= usize::MAX,
        is_consistent(files),
        is_reading(entries, files, parsed),
    ensures
        missed(remembered(entries, parsed), files) == Seq::<usize>::empty(),
{
    let now = remembered(entries, parsed);
    assert forall|i: int| 0 <= i < files.len() implies is_hit(now, #[trigger] files[i]) by {
        lemma_hit_after_reading(entries, files, parsed, i);
    }
    lemma_nothing_missed(now, files);
}

/// Asking again gives the sessions that the first asking gave, remembered or
/// read, where no file was asked for twice.
pub proof fn law_same_sessions_again(
    entries: Map<Seq<char>, Entry<Option<Session>>>,
    files: Seq<Stamped>,
    parsed: Seq<(Stamped, Option<Session>)>,
)
    requires
        files.len() <= usize::MAX,
        forall|i: int, j: int|
            0 <= i < j < files.len() ==> (#[trigger] files[i]).path@ != (#[trigger] files[j]).path@,
        is_reading(entries, files, parsed),
    ensures
        found(remembered(entries, parsed), files).to_multiset() == (found(entries, files) + read_out(
            parsed,
        )).to_multiset(),
{
    let now = remembered(entries, parsed);
    lemma_missed_positions(entries, files);
    assert forall|i: int, j: int|
        0 <= i < files.len() && 0 <= j < files.len() && (#[trigger] files[i]).path@ == (
        #[trigger] files[j]).path@ implies files[i].len == files[j].len && files[i].modified_ms
        == files[j].modified_ms by {}
    assert forall|i: int| 0 <= i < files.len() implies is_hit(now, #[trigger] files[i]) by {
        lemma_hit_after_reading(entries, files, parsed, i);
    }
    assert forall|i: int| 0 <= i < files.len() && is_hit(entries, #[trigger] files[i]) implies now[files[i].path@]
        == entries[files[i].path@] by {
        assert forall|k: int| 0 <= k < parsed.len() implies (#[trigger] parsed[k]).0.path@
            != files[i].path@ by {
            let place = missed(entries, files)[k] as int;
            assert(!is_hit(entries, files[place]));
            assert(files[place].path@ != files[i].path@);
        }
        lemma_untouched(entries, parsed, files[i].path@);
    }
    assert forall|k: int| 0 <= k < parsed.len() implies now[(#[trigger] parsed[k]).0.path@].value
        == parsed[k].1 by {
        lemma_missed_ascends(entries, files);
        assert forall|l: int| 0 <= l < parsed.len() && l != k implies (#[trigger] parsed[l]).0.path@
            != parsed[k].0.path@ by {
            let a = missed(entries, files)[k] as int;
            let b = missed(entries, files)[l] as int;
            assert(a != b);
            assert(files[a].path@ != files[b].path@);
        }
        lemma_sole_reading(entries, parsed, k);
    }
    lemma_found_again(entries, now, files, parsed);
    assert(parsed.take(missed(entries, files).len() as int) =~= parsed);
}

proof fn lemma_found_again(
    entries: Map<Seq<char>, Entry<Option<Session>>>,
    now: Map<Seq<char>, Entry<Option<Session>>>,
    files: Seq<Stamped>,
    parsed: Seq<(Stamped, Option<Session>)>,
)
    requires
        files.len() <= usize::MAX,
        missed(entries, files).len() <= parsed.len(),
        forall|k: int|
            0 <= k < missed(entries, files).len() ==> (#[trigger] parsed[k]).0 == files[missed(
                entries,
                files,
            )[k] as int],
        forall|i: int| 0 <= i < files.len() ==> is_hit(now, #[trigger] files[i]),
        forall|i: int|
            0 <= i < files.len() && is_hit(entries, #[trigger] files[i]) ==> now[files[i].path@]
                == entries[files[i].path@],
        forall|k: int| 0 <= k < parsed.len() ==> now[(#[trigger] parsed[k]).0.path@].value == parsed[k].1,
    ensures
        found(now, files).to_multiset() == (found(entries, files) + read_out(
            parsed.take(missed(entries, files).len() as int),
        )).to_multiset(),
    decreases files.len(),
{
    broadcast use vstd::seq_lib::group_to_multiset_ensures;

    let all = missed(entries, files);
    if files.len() == 0 {
        assert(parsed.take(0) =~= seq![]);
        assert(found(now, files) =~= found(entries, files) + read_out(parsed.take(0)));
    } else {
        let shorter = files.drop_last();
        let last = files.last();
        let earlier = missed(entries, shorter);
        assert forall|k: int| 0 <= k < earlier.len() implies (#[trigger] parsed[k]).0 == shorter[earlier[k] as int] by {
            lemma_missed_positions(entries, shorter);
            assert(all[k] == earlier[k]);
        }
        assert forall|i: int| 0 <= i < shorter.len() implies is_hit(now, #[trigger] shorter[i]) by {
            assert(shorter[i] == files[i]);
        }
        assert forall|i: int| 0 <= i < shorter.len() && is_hit(entries, #[trigger] shorter[i]) implies now[shorter[i].path@]
            == entries[shorter[i].path@] by {
            assert(shorter[i] == files[i]);
        }
        lemma_found_again(entries, now, shorter, parsed);
        let known = found(entries, shorter);
        let read = read_out(parsed.take(earlier.len() as int));
        assert(files[files.len() - 1] == last);
        assert(is_hit(now, last));
        vstd::seq_lib::lemma_multiset_commutative(known, read);
        if is_hit(entries, last) {
            if entries[last.path@].value is Some {
                let session = entries[last.path@].value->0;
                vstd::seq_lib::lemma_multiset_commutative(known.push(session), read);
                assert(found(now, files).to_multiset() =~= (known.push(session) + read).to_multiset());
            }
        } else {
            let n = earlier.len() as int;
            assert(all[n] == files.len() - 1);
            assert(parsed[n].0 == last);
            assert(parsed.take(n + 1).drop_last() =~= parsed.take(n));
            assert(parsed.take(n + 1).last() == parsed[n]);
            if let Some(session) = parsed[n].1 {
                vstd::seq_lib::lemma_multiset_commutative(known, read.push(session));
                assert(found(now, files).to_multiset() =~= (known + read.push(session)).to_multiset());
            }
        }
    }
}

/// Remembering some files changes nothing about others.
pub proof fn law_others_are_untouched<T>(
    entries: Map<Seq<char>, Entry<T>>,
    parsed: Seq<(Stamped, T)>,
    path: Seq<char>,
)
    requires
        forall|k: int| 0 <= k < parsed.len() ==> (#[trigger] parsed[k]).0.path@ != path,
    ensures
        remembered(entries, parsed).contains_key(path) == entries.contains_key(path),
        remembered(entries, parsed)[path] == entries[path],
{
    lemma_untouched(entries, parsed, path);
}

/// On saving, the cache forgets a file exactly if it is gone and was not asked
/// for, and what it remembers of the others stays as it is.
pub proof fn law_save_forgets_only_the_gone(
    cache: CacheView,
    gone: Set<Seq<char>>,
    path: Seq<char>,
)
    ensures
        pruned(cache, gone).sessions.contains_key(path) <==> cache.sessions.contains_key(path) && (
        cache.accessed.contains(path) || !gone.contains(path)),
        pruned(cache, gone).titles.contains_key(path) <==> cache.titles.contains_key(path) && (
        cache.accessed.contains(path) || !gone.contains(path)),
        pruned(cache, gone).sessions.contains_key(path) ==> pruned(cache, gone).sessions[path]
            == cache.sessions[path],
        pruned(cache, gone).titles.contains_key(path) ==> pruned(cache, gone).titles[path]
            == cache.titles[path],
{
}

/// What is remembered of the session in a file outlasts saving the cache and
/// loading it again, in whatever order its rows come back, unless the file is
/// gone and was not asked for.
pub proof fn law_hits_outlast_saving_and_loading(
    cache: CacheView,
    gone: Set<Seq<char>>,
    written: Seq<(String, Entry<Option<Session>>)>,
    read: Seq<(String, Entry<Option<Session>>)>,
    file: Stamped,
)
    requires
        table::by_path(written) == pruned(cache, gone).sessions,
        table::has_distinct_paths(written),
        table::has_distinct_paths(read),
        table::are_among(written, read),
        table::are_among(read, written),
        is_hit(cache.sessions, file),
        cache.accessed.contains(file.path@) || !gone.contains(file.path@),
    ensures
        is_hit(table::by_path(read), file),
        table::by_path(read)[file.path@].value == cache.sessions[file.path@].value,
{
    table::law_order_of_rows_does_not_matter(written, read);
}

/// What is remembered of the title in a file outlasts saving the cache and
/// loading it again, as a session does.
pub proof fn law_titles_outlast_saving_and_loading(
    cache: CacheView,
    gone: Set<Seq<char>>,
    written: Seq<(String, Entry<Option<String>>)>,
    read: Seq<(String, Entry<Option<String>>)>,
    file: Stamped,
)
    requires
        table::by_path(written) == pruned(cache, gone).titles,
        table::has_distinct_paths(written),
        table::has_distinct_paths(read),
        table::are_among(written, read),
        table::are_among(read, written),
        is_hit(cache.titles, file),
        cache.accessed.contains(file.path@) || !gone.contains(file.path@),
    ensures
        is_hit(table::by_path(read), file),
        table::by_path(read)[file.path@].value == cache.titles[file.path@].value,
{
    table::law_order_of_rows_does_not_matter(written, read);
}

/// Where nothing is forgotten and nothing was read since the store was last
/// written, saving has nothing to write.
pub proof fn law_nothing_new_nothing_to_write(cache: CacheView, gone: Set<Seq<char>>)
    requires
        !cache.dirty,
        forall|path: Seq<char>| #[trigger]
            gone.contains(path) ==> cache.accessed.contains(path) || (!cache.sessions.contains_key(path)
                && !cache.titles.contains_key(path)),
    ensures
        !pruned(cache, gone).dirty,
        pruned(cache, gone).sessions == cache.sessions,
        pruned(cache, gone).titles == cache.titles,
{
    assert(pruned(cache, gone).sessions =~= cache.sessions);
    assert(pruned(cache, gone).titles =~= cache.titles);
}

/// What could not be written is still to be written on the next saving.
pub proof fn law_unwritten_stays_to_be_written(
    cache: CacheView,
    gone: Set<Seq<char>>,
    later: Set<Seq<char>>,
)
    requires
        pruned(cache, gone).dirty,
    ensures
        pruned(pruned(cache, gone), later).dirty,
{
}

proof fn lemma_nothing_missed<T>(entries: Map<Seq<char>, Entry<T>>, files: Seq<Stamped>)
    requires
        forall|i: int| 0 <= i < files.len() ==> is_hit(entries, #[trigger] files[i]),
    ensures
        missed(entries, files) == Seq::<usize>::empty(),
    decreases files.len(),
{
    if files.len() > 0 {
        let shorter = files.drop_last();
        assert forall|i: int| 0 <= i < shorter.len() implies is_hit(entries, #[trigger] shorter[i]) by {
            assert(shorter[i] == files[i]);
        }
        lemma_nothing_missed(entries, shorter);
        assert(files[files.len() - 1] == files.last());
    }
}

proof fn lemma_missed_ascends<T>(entries: Map<Seq<char>, Entry<T>>, files: Seq<Stamped>)
    requires
        files.len() <= usize::MAX,
    ensures
        forall|j: int, k: int|
            0 <= j < k < missed(entries, files).len() ==> #[trigger] missed(entries, files)[j]
                < #[trigger] missed(entries, files)[k],
    decreases files.len(),
{
    if files.len() > 0 {
        let shorter = files.drop_last();
        let earlier = missed(entries, shorter);
        lemma_missed_ascends(entries, shorter);
        lemma_missed_positions(entries, shorter);
        assert forall|j: int, k: int| 0 <= j < k < missed(entries, files).len() implies #[trigger] missed(
            entries,
            files,
        )[j] < #[trigger] missed(entries, files)[k] by {
            assert(missed(entries, files)[j] == earlier[j]);
            if k < earlier.len() {
                assert(missed(entries, files)[k] == earlier[k]);
            }
        }
    }
}

proof fn lemma_untouched<T>(
    entries: Map<Seq<char>, Entry<T>>,
    parsed: Seq<(Stamped, T)>,
    path: Seq<char>,
)
    requires
        forall|k: int| 0 <= k < parsed.len() ==> (#[trigger] parsed[k]).0.path@ != path,
    ensures
        remembered(entries, parsed).contains_key(path) == entries.contains_key(path),
        remembered(entries, parsed)[path] == entries[path],
    decreases parsed.len(),
{
    if parsed.len() > 0 {
        let shorter = parsed.drop_last();
        assert forall|k: int| 0 <= k < shorter.len() implies (#[trigger] shorter[k]).0.path@ != path by {
            assert(shorter[k] == parsed[k]);
        }
        lemma_untouched(entries, shorter, path);
        assert(parsed[parsed.len() - 1] == parsed.last());
    }
}

/// A path that was read has the entry of one of its readings.
proof fn lemma_some_reading<T>(
    entries: Map<Seq<char>, Entry<T>>,
    parsed: Seq<(Stamped, T)>,
    path: Seq<char>,
) -> (k: int)
    requires
        exists|k: int| 0 <= k < parsed.len() && (#[trigger] parsed[k]).0.path@ == path,
    ensures
        0 <= k < parsed.len(),
        parsed[k].0.path@ == path,
        remembered(entries, parsed).contains_key(path),
        remembered(entries, parsed)[path] == entry_of(parsed[k].0, parsed[k].1),
    decreases parsed.len(),
{
    if parsed.last().0.path@ == path {
        parsed.len() - 1
    } else {
        let shorter = parsed.drop_last();
        let witness = choose|k: int| 0 <= k < parsed.len() && (#[trigger] parsed[k]).0.path@ == path;
        assert(shorter[witness] == parsed[witness]);
        lemma_some_reading(entries, shorter, path)
    }
}

proof fn lemma_sole_reading<T>(
    entries: Map<Seq<char>, Entry<T>>,
    parsed: Seq<(Stamped, T)>,
    k: int,
)
    requires
        0 <= k < parsed.len(),
        forall|l: int|
            0 <= l < parsed.len() && l != k ==> (#[trigger] parsed[l]).0.path@ != parsed[k].0.path@,
    ensures
        remembered(entries, parsed)[parsed[k].0.path@] == entry_of(parsed[k].0, parsed[k].1),
{
    let found_at = lemma_some_reading(entries, parsed, parsed[k].0.path@);
}

proof fn lemma_hit_after_reading<T>(
    entries: Map<Seq<char>, Entry<T>>,
    files: Seq<Stamped>,
    parsed: Seq<(Stamped, T)>,
    i: int,
)
    requires
        files.len() <= usize::MAX,
        is_consistent(files),
        is_reading(entries, files, parsed),
        0 <= i < files.len(),
    ensures
        is_hit(remembered(entries, parsed), files[i]),
{
    let path = files[i].path@;
    let misses = missed(entries, files);
    lemma_missed_positions(entries, files);
    if exists|k: int| 0 <= k < parsed.len() && (#[trigger] parsed[k]).0.path@ == path {
        let k = lemma_some_reading(entries, parsed, path);
        assert(parsed[k].0 == files[misses[k] as int]);
        assert(files[misses[k] as int].path@ == files[i].path@);
    } else {
        lemma_untouched(entries, parsed, path);
        if !is_hit(entries, files[i]) {
            law_changed_files_are_read(entries, files, i as usize);
            let k = choose|k: int| 0 <= k < misses.len() && misses[k] == i as usize;
            assert(parsed[k].0 == files[i]);
        }
    }
}

/// Something is remembered of a file as it is exactly where it has an entry with
/// its length and the time it last changed.
pub proof fn law_a_hit_is_an_unchanged_file<T>(entries: Map<Seq<char>, Entry<T>>, file: Stamped)
    ensures
        !entries.contains_key(file.path@) ==> !is_hit(entries, file),
        entries.contains_key(file.path@) ==> {
            let entry = entries[file.path@];
            is_hit(entries, file) <==> entry.len == file.len && entry.modified_ms == file.modified_ms
        },
{
}

/// The remembered sessions are those of the files that have an entry with a
/// session, their length and the time they last changed: one for each such file,
/// in the order of the files.
pub proof fn law_unchanged_files_give_their_sessions(
    entries: Map<Seq<char>, Entry<Option<Session>>>,
    files: Seq<Stamped>,
)
    ensures
        found(entries, files) == files.filter(
            |file: Stamped|
                {
                    &&& entries.contains_key(file.path@)
                    &&& entries[file.path@].len == file.len
                    &&& entries[file.path@].modified_ms == file.modified_ms
                    &&& entries[file.path@].value is Some
                },
        ).map_values(|file: Stamped| entries[file.path@].value->0),
    decreases files.len(),
{
    let known = |file: Stamped|
        {
            &&& entries.contains_key(file.path@)
            &&& entries[file.path@].len == file.len
            &&& entries[file.path@].modified_ms == file.modified_ms
            &&& entries[file.path@].value is Some
        };
    let value = |file: Stamped| entries[file.path@].value->0;
    reveal(Seq::filter);
    if files.len() > 0 {
        law_unchanged_files_give_their_sessions(entries, files.drop_last());
        assert(found(entries, files) =~= files.filter(known).map_values(value));
    } else {
        assert(found(entries, files) =~= files.filter(known).map_values(value));
    }
}

/// The sessions read are those of the readings that gave one: one for each such
/// reading, in order.
pub proof fn law_readings_give_their_sessions(parsed: Seq<(Stamped, Option<Session>)>)
    ensures
        read_out(parsed) == parsed.filter(|reading: (Stamped, Option<Session>)| reading.1 is Some).map_values(
            |reading: (Stamped, Option<Session>)| reading.1->0,
        ),
    decreases parsed.len(),
{
    let some = |reading: (Stamped, Option<Session>)| reading.1 is Some;
    let value = |reading: (Stamped, Option<Session>)| reading.1->0;
    reveal(Seq::filter);
    if parsed.len() > 0 {
        law_readings_give_their_sessions(parsed.drop_last());
        assert(read_out(parsed) =~= parsed.filter(some).map_values(value));
    } else {
        assert(read_out(parsed) =~= parsed.filter(some).map_values(value));
    }
}

/// No session gets lost on the way: each that is remembered of an unchanged file
/// is given, and each that was read.
pub proof fn law_every_session_is_given(
    entries: Map<Seq<char>, Entry<Option<Session>>>,
    files: Seq<Stamped>,
    parsed: Seq<(Stamped, Option<Session>)>,
    session: Session,
)
    ensures
        (found(entries, files) + read_out(parsed)).contains(session) <==> {
            ||| exists|i: int|
                0 <= i < files.len() && entries.contains_key((#[trigger] files[i]).path@)
                    && entries[files[i].path@].len == files[i].len && entries[files[i].path@].modified_ms
                    == files[i].modified_ms && entries[files[i].path@].value == Some(session)
            ||| exists|k: int| 0 <= k < parsed.len() && (#[trigger] parsed[k]).1 == Some(session)
        },
{
    let known = found(entries, files);
    let read = read_out(parsed);
    lemma_found_contains(entries, files, session);
    lemma_read_contains(parsed, session);
    if known.contains(session) {
        let i = choose|i: int| 0 <= i < known.len() && known[i] == session;
        assert((known + read)[i] == session);
    }
    if read.contains(session) {
        let i = choose|i: int| 0 <= i < read.len() && read[i] == session;
        assert((known + read)[known.len() + i] == session);
    }
    if (known + read).contains(session) {
        let i = choose|i: int| 0 <= i < (known + read).len() && (known + read)[i] == session;
        if i < known.len() {
            assert(known[i] == session);
        } else {
            assert(read[i - known.len()] == session);
        }
    }
}

proof fn lemma_found_contains(
    entries: Map<Seq<char>, Entry<Option<Session>>>,
    files: Seq<Stamped>,
    session: Session,
)
    ensures
        found(entries, files).contains(session) <==> exists|i: int|
            0 <= i < files.len() && entries.contains_key((#[trigger] files[i]).path@)
                && entries[files[i].path@].len == files[i].len && entries[files[i].path@].modified_ms
                == files[i].modified_ms && entries[files[i].path@].value == Some(session),
    decreases files.len(),
{
    if files.len() > 0 {
        let shorter = files.drop_last();
        let last = files.len() - 1;
        let earlier = found(entries, shorter);
        let all = found(entries, files);
        lemma_found_contains(entries, shorter, session);
        assert(files[last] == files.last());
        if all.contains(session) {
            let k = choose|k: int| 0 <= k < all.len() && all[k] == session;
            if k < earlier.len() {
                assert(earlier[k] == session);
                let i = choose|i: int|
                    0 <= i < shorter.len() && entries.contains_key((#[trigger] shorter[i]).path@)
                        && entries[shorter[i].path@].len == shorter[i].len
                        && entries[shorter[i].path@].modified_ms == shorter[i].modified_ms
                        && entries[shorter[i].path@].value == Some(session);
                assert(files[i] == shorter[i]);
            } else {
                assert(entries[files[last].path@].value == Some(session));
            }
        }
        if exists|i: int|
            0 <= i < files.len() && entries.contains_key((#[trigger] files[i]).path@)
                && entries[files[i].path@].len == files[i].len && entries[files[i].path@].modified_ms
                == files[i].modified_ms && entries[files[i].path@].value == Some(session) {
            let i = choose|i: int|
                0 <= i < files.len() && entries.contains_key((#[trigger] files[i]).path@)
                    && entries[files[i].path@].len == files[i].len && entries[files[i].path@].modified_ms
                    == files[i].modified_ms && entries[files[i].path@].value == Some(session);
            if i < last {
                assert(shorter[i] == files[i]);
                assert(earlier.contains(session));
                let k = choose|k: int| 0 <= k < earlier.len() && earlier[k] == session;
                assert(all[k] == session);
            } else {
                assert(all[all.len() - 1] == session);
            }
        }
    }
}

proof fn lemma_read_contains(parsed: Seq<(Stamped, Option<Session>)>, session: Session)
    ensures
        read_out(parsed).contains(session) <==> exists|k: int|
            0 <= k < parsed.len() && (#[trigger] parsed[k]).1 == Some(session),
    decreases parsed.len(),
{
    if parsed.len() > 0 {
        let shorter = parsed.drop_last();
        let last = parsed.len() - 1;
        let earlier = read_out(shorter);
        let all = read_out(parsed);
        lemma_read_contains(shorter, session);
        assert(parsed[last] == parsed.last());
        if all.contains(session) {
            let i = choose|i: int| 0 <= i < all.len() && all[i] == session;
            if i < earlier.len() {
                assert(earlier[i] == session);
                let k = choose|k: int| 0 <= k < shorter.len() && (#[trigger] shorter[k]).1 == Some(session);
                assert(parsed[k] == shorter[k]);
            } else {
                assert(parsed[last].1 == Some(session));
            }
        }
        if exists|k: int| 0 <= k < parsed.len() && (#[trigger] parsed[k]).1 == Some(session) {
            let k = choose|k: int| 0 <= k < parsed.len() && (#[trigger] parsed[k]).1 == Some(session);
            if k < last {
                assert(shorter[k] == parsed[k]);
                assert(earlier.contains(session));
                let i = choose|i: int| 0 <= i < earlier.len() && earlier[i] == session;
                assert(all[i] == session);
            } else {
                assert(all[all.len() - 1] == session);
            }
        }
    }
}

/// There are as many sessions as there are unchanged files with one remembered
/// and readings that gave one.
pub proof fn law_no_session_is_given_twice_over(
    entries: Map<Seq<char>, Entry<Option<Session>>>,
    files: Seq<Stamped>,
    parsed: Seq<(Stamped, Option<Session>)>,
)
    ensures
        (found(entries, files) + read_out(parsed)).len() == files.filter(
            |file: Stamped|
                {
                    &&& entries.contains_key(file.path@)
                    &&& entries[file.path@].len == file.len
                    &&& entries[file.path@].modified_ms == file.modified_ms
                    &&& entries[file.path@].value is Some
                },
        ).len() + parsed.filter(|reading: (Stamped, Option<Session>)| reading.1 is Some).len(),
{
    law_unchanged_files_give_their_sessions(entries, files);
    law_readings_give_their_sessions(parsed);
}

/// Nothing but files that were asked for is read, and none of which something is
/// remembered as it is.
pub proof fn law_only_files_asked_for_are_read<T>(
    entries: Map<Seq<char>, Entry<T>>,
    files: Seq<Stamped>,
    k: int,
)
    requires
        files.len() <= usize::MAX,
        0 <= k < missed(entries, files).len(),
    ensures
        missed(entries, files)[k] < files.len(),
        !is_hit(entries, files[missed(entries, files)[k] as int]),
{
    lemma_missed_positions(entries, files);
}

/// The files to be read are taken in their order, each once.
pub proof fn law_files_are_read_in_order<T>(
    entries: Map<Seq<char>, Entry<T>>,
    files: Seq<Stamped>,
    j: int,
    k: int,
)
    requires
        files.len() <= usize::MAX,
        0 <= j < k < missed(entries, files).len(),
    ensures
        missed(entries, files)[j] < missed(entries, files)[k] < files.len(),
{
    lemma_missed_ascends(entries, files);
    lemma_missed_positions(entries, files);
}

/// The paths of files are the paths that one of them has.
pub proof fn law_paths_are_those_of_the_files(files: Seq<Stamped>, path: Seq<char>)
    ensures
        paths(files).contains(path) <==> exists|i: int|
            0 <= i < files.len() && (#[trigger] files[i]).path@ == path,
    decreases files.len(),
{
    if files.len() > 0 {
        let shorter = files.drop_last();
        let last = files.len() - 1;
        law_paths_are_those_of_the_files(shorter, path);
        assert(files[last] == files.last());
        if exists|i: int| 0 <= i < shorter.len() && (#[trigger] shorter[i]).path@ == path {
            let i = choose|i: int| 0 <= i < shorter.len() && (#[trigger] shorter[i]).path@ == path;
            assert(files[i].path@ == path);
        }
        if exists|i: int| 0 <= i < files.len() && (#[trigger] files[i]).path@ == path {
            let i = choose|i: int| 0 <= i < files.len() && (#[trigger] files[i]).path@ == path;
            if i < last {
                assert(shorter[i].path@ == path);
            }
        }
    }
}

/// What was read out of a file last is remembered, with the length of the file and
/// the time it last changed, whether there was something to read out or not.
pub proof fn law_the_last_reading_is_remembered<T>(
    entries: Map<Seq<char>, Entry<T>>,
    parsed: Seq<(Stamped, T)>,
    k: int,
)
    requires
        0 <= k < parsed.len(),
        forall|l: int| k < l < parsed.len() ==> (#[trigger] parsed[l]).0.path@ != parsed[k].0.path@,
    ensures
        ({
            let path = parsed[k].0.path@;
            let after = remembered(entries, parsed);
            &&& after.contains_key(path)
            &&& after[path].len == parsed[k].0.len
            &&& after[path].modified_ms == parsed[k].0.modified_ms
            &&& after[path].value == parsed[k].1
        }),
    decreases parsed.len(),
{
    let last = parsed.len() - 1;
    assert(parsed[last] == parsed.last());
    if k < last {
        let shorter = parsed.drop_last();
        assert(shorter[k] == parsed[k]);
        assert(parsed[last].0.path@ != parsed[k].0.path@);
        assert forall|l: int| k < l < shorter.len() implies (#[trigger] shorter[l]).0.path@
            != shorter[k].0.path@ by {
            assert(shorter[l] == parsed[l]);
        }
        law_the_last_reading_is_remembered(entries, shorter, k);
    }
}

/// Asking for files takes note of their paths, and there is something to write
/// exactly where there was before or a file was read. Titles, and where the cache
/// is kept, stay as they are.
pub proof fn law_asking_takes_note(
    cache: CacheView,
    files: Seq<Stamped>,
    parsed: Seq<(Stamped, Option<Session>)>,
    path: Seq<char>,
)
    ensures
        after_sessions(cache, files, parsed).accessed.contains(path) <==> cache.accessed.contains(path)
            || exists|i: int| 0 <= i < files.len() && (#[trigger] files[i]).path@ == path,
        after_sessions(cache, files, parsed).dirty <==> cache.dirty || parsed.len() > 0,
        after_sessions(cache, files, parsed).titles == cache.titles,
        after_sessions(cache, files, parsed).path == cache.path,
        after_sessions(cache, files, parsed).sessions == remembered(cache.sessions, parsed),
{
    law_paths_are_those_of_the_files(files, path);
}

/// A title that was read is found from then on while its file stays as it is, also
/// where there was none, and has to be written. A file of another path, and all
/// else, is as before.
pub proof fn law_a_title_is_read_once(cache: CacheView, file: Stamped, title: Option<String>, other: Stamped)
    ensures
        known_title(with_title(cache, file, title).titles, file) == Some(title),
        other.path@ != file.path@ ==> known_title(with_title(cache, file, title).titles, other)
            == known_title(cache.titles, other),
        other.path@ == file.path@ && (other.len != file.len || other.modified_ms != file.modified_ms)
            ==> known_title(with_title(cache, file, title).titles, other) is None,
        with_title(cache, file, title).dirty,
        with_title(cache, file, title).sessions == cache.sessions,
        with_title(cache, file, title).accessed == cache.accessed,
        with_title(cache, file, title).path == cache.path,
{
}

/// A title is known exactly where one, or that there is none, is remembered of the
/// file with its length and the time it last changed.
pub proof fn law_a_known_title_is_of_an_unchanged_file(
    titles: Map<Seq<char>, Entry<Option<String>>>,
    file: Stamped,
)
    ensures
        known_title(titles, file) is Some <==> titles.contains_key(file.path@) && titles[file.path@].len
            == file.len && titles[file.path@].modified_ms == file.modified_ms,
        known_title(titles, file) matches Some(title) ==> title == titles[file.path@].value,
{
}

/// Asking for a file takes note of its path and changes nothing else.
pub proof fn law_asking_for_a_title_takes_note(cache: CacheView, path: Seq<char>, other: Seq<char>)
    ensures
        asked(cache, path).accessed.contains(other) <==> cache.accessed.contains(other) || other == path,
        asked(cache, path).sessions == cache.sessions,
        asked(cache, path).titles == cache.titles,
        asked(cache, path).dirty == cache.dirty,
        asked(cache, path).path == cache.path,
{
}

/// Saving starts the note of what is asked for afresh and leaves the cache where it
/// is kept. There is something to write exactly where there was before or a file
/// is forgotten.
pub proof fn law_saving_starts_afresh(cache: CacheView, gone: Set<Seq<char>>)
    ensures
        forall|path: Seq<char>| !#[trigger] pruned(cache, gone).accessed.contains(path),
        pruned(cache, gone).path == cache.path,
        pruned(cache, gone).dirty <==> cache.dirty || exists|path: Seq<char>| #[trigger]
            gone.contains(path) && !cache.accessed.contains(path) && (cache.sessions.contains_key(path)
                || cache.titles.contains_key(path)),
{
    let after = pruned(cache, gone);
    if exists|path: Seq<char>| #[trigger]
        gone.contains(path) && !cache.accessed.contains(path) && (cache.sessions.contains_key(path)
            || cache.titles.contains_key(path)) {
        let path = choose|path: Seq<char>| #[trigger]
            gone.contains(path) && !cache.accessed.contains(path) && (cache.sessions.contains_key(path)
                || cache.titles.contains_key(path));
        assert(!after.sessions.contains_key(path));
        assert(!after.titles.contains_key(path));
    } else {
        assert(after.sessions =~= cache.sessions);
        assert(after.titles =~= cache.titles);
    }
}

/// A cache that was loaded knows what was kept, was asked for nothing, and has
/// nothing to write. What was written, it gives back.
pub proof fn law_loading_gives_back_what_was_kept(
    cache: CacheView,
    path: Option<String>,
    file: Stamped,
    asked_for: Seq<char>,
)
    ensures
        ({
            let again = loaded(path, cache.sessions, cache.titles);
            &&& found(again.sessions, seq![file]) == found(cache.sessions, seq![file])
            &&& again.sessions == cache.sessions
            &&& known_title(again.titles, file) == known_title(cache.titles, file)
            &&& again.titles == cache.titles
            &&& again.path == path
            &&& !again.accessed.contains(asked_for)
            &&& !again.dirty
        }),
{
}

/// The cache is kept within the directory for temporary files, in a file of its own
/// name there.
pub proof fn law_the_cache_is_kept_among_temporary_files(temp_dir: Seq<char>)
    ensures
        path::is_within(kept_at(temp_dir), temp_dir),
        kept_at(temp_dir).len() >= 16,
        kept_at(temp_dir).skip(kept_at(temp_dir).len() - 16) == "ap/sessions.json"@,
        kept_at(temp_dir).take(temp_dir.len() as int) == temp_dir,
{
    reveal_strlit("ap/sessions.json");
    path::law_joined_lies_within(temp_dir, "ap/sessions.json"@);
    path::law_joined_keeps_both(temp_dir, "ap/sessions.json"@);
}

/// A path is unvisited until it is asked for, if anything is remembered of it, and
/// only those that are unvisited can be forgotten on saving.
pub proof fn law_only_the_unvisited_are_forgotten(cache: CacheView, gone: Set<Seq<char>>, path: Seq<char>)
    ensures
        is_unvisited(cache, path) <==> (cache.sessions.contains_key(path) || cache.titles.contains_key(path))
            && !cache.accessed.contains(path),
        !is_unvisited(asked(cache, path), path),
        !is_unvisited(cache, path) ==> pruned(cache, gone).sessions.contains_key(path)
            == cache.sessions.contains_key(path) && pruned(cache, gone).titles.contains_key(path)
            == cache.titles.contains_key(path),
        is_unvisited(cache, path) && gone.contains(path) ==> !pruned(cache, gone).sessions.contains_key(path)
            && !pruned(cache, gone).titles.contains_key(path),
{
}

/// A stamp has the length of the file, and a time less than a millisecond from that of
/// its last change. There is one for every time that can be told.
pub proof fn law_a_stamp_is_exact_to_the_millisecond(len: u64, nanosecond: i128)
    ensures
        stamp_of(len, None) is None,
        stamp_of(len, Some(nanosecond)) is Some <==> time::EARLIEST <= nanosecond <= time::LATEST,
        stamp_of(len, Some(nanosecond)) matches Some((l, ms)) ==> l == len && -1_000_000 < nanosecond
            - ms * 1_000_000 < 1_000_000,
        0 <= nanosecond ==> (stamp_of(len, Some(nanosecond)) matches Some((l, ms)) ==> ms * 1_000_000
            <= nanosecond),
{
    time::law_cutting_off_leaves_less_than_a_unit(nanosecond as int, time::MILLISECOND as int);
}

} // verus!

//! What is remembered of files: one entry a file, found by the file's path.

use vstd::hash_map::StringHashMap;
use vstd::prelude::*;

verus! {

/// What is remembered of a file, and what the file was like at the time.
#[derive(Debug, PartialEq, Eq)]
pub struct Entry<T> {
    pub len: u64,
    pub modified_ms: i64,
    pub value: T,
}

/// Entries by path.
pub struct Table<T> {
    rows: Vec<(String, Entry<T>)>,
    /// Where the row of each path stands.
    places: StringHashMap<usize>,
}

/// Whether `places` says of every path where its row stands, and of no other path anything.
pub open spec fn is_index<T>(rows: Seq<(String, Entry<T>)>, places: Map<Seq<char>, usize>) -> bool {
    &&& forall|i: int|
        0 <= i < rows.len() ==> places.contains_key((#[trigger] rows[i]).0@) && places[rows[i].0@] == i
    &&& forall|path: Seq<char>| #[trigger]
        places.contains_key(path) ==> places[path] < rows.len() && rows[places[path] as int].0@ == path
}

/// The entries of `rows` by path, where a later row overrides an earlier one.
pub open spec fn by_path<T>(rows: Seq<(String, Entry<T>)>) -> Map<Seq<char>, Entry<T>>
    decreases rows.len(),
{
    if rows.len() == 0 {
        Map::empty()
    } else {
        by_path(rows.drop_last()).insert(rows.last().0@, rows.last().1)
    }
}

impl<T> View for Table<T> {
    type V = Map<Seq<char>, Entry<T>>;

    closed spec fn view(&self) -> Map<Seq<char>, Entry<T>> {
        by_path(self.rows@)
    }
}

proof fn lemma_by_path_finds<T>(rows: Seq<(String, Entry<T>)>, places: Map<Seq<char>, usize>)
    requires
        is_index(rows, places),
    ensures
        by_path(rows).dom() =~= places.dom(),
        forall|i: int| 0 <= i < rows.len() ==> by_path(rows)[(#[trigger] rows[i]).0@] == rows[i].1,
    decreases rows.len(),
{
    if rows.len() > 0 {
        let before = rows.drop_last();
        let path = rows.last().0@;
        let fewer = places.remove(path);
        assert(rows[rows.len() - 1] == rows.last());
        assert forall|i: int| 0 <= i < before.len() implies fewer.contains_key((#[trigger] before[i]).0@)
            && fewer[before[i].0@] == i by {
            assert(before[i] == rows[i]);
        }
        assert forall|p: Seq<char>| #[trigger] fewer.contains_key(p) implies fewer[p] < before.len()
            && before[fewer[p] as int].0@ == p by {
            assert(places.contains_key(p));
            if places[p] == rows.len() - 1 {
                assert(p == path);
            }
        }
        lemma_by_path_finds(before, fewer);
        assert(places.contains_key(path));
        assert(by_path(rows).dom() =~= places.dom());
        assert forall|i: int| 0 <= i < rows.len() implies by_path(rows)[(#[trigger] rows[i]).0@]
            == rows[i].1 by {
            if i < before.len() {
                assert(before[i] == rows[i]);
                assert(places[rows[i].0@] == i);
            }
        }
    } else {
        assert(places.dom() =~= Set::empty()) by {
            assert forall|p: Seq<char>| !places.dom().contains(p) by {
                if places.contains_key(p) {
                    assert(places[p] < rows.len());
                }
            }
        }
    }
}

impl<T> Table<T> {
    #[verifier::type_invariant]
    spec fn well_formed(self) -> bool {
        is_index(self.rows@, self.places@)
    }

    /// A table without entries.
    pub fn new() -> (r: Table<T>)
        ensures
            r@ == Map::<Seq<char>, Entry<T>>::empty(),
    {
        Table { rows: Vec::new(), places: StringHashMap::new() }
    }

    /// The entry of `path`.
    pub fn get(&self, path: &str) -> (r: Option<&Entry<T>>)
        ensures
            match r {
                Some(entry) => self@.contains_key(path@) && *entry == self@[path@],
                None => !self@.contains_key(path@),
            },
    {
        proof {
            use_type_invariant(self);
            lemma_by_path_finds(self.rows@, self.places@);
        }
        match self.places.get(path) {
            Some(place) => Some(&self.rows[*place].1),
            None => None,
        }
    }

    /// Gives `path` an entry, in place of any that it has.
    pub fn insert(&mut self, path: String, entry: Entry<T>)
        ensures
            final(self)@ == old(self)@.insert(path@, entry),
    {
        proof {
            use_type_invariant(&*self);
            lemma_by_path_finds(self.rows@, self.places@);
        }
        let mut taken = Table::new();
        std::mem::swap(self, &mut taken);
        let ghost before = taken;
        let mut rows = taken.rows;
        let mut places = taken.places;
        let place: usize = match places.get(path.as_str()) {
            Some(place) => *place,
            None => rows.len(),
        };
        let key = path.clone();
        if place < rows.len() {
            rows.set(place, (path, entry));
        } else {
            rows.push((path, entry));
            places.insert(key, place);
        }
        proof {
            assert(is_index(rows@, places@));
            lemma_by_path_finds(rows@, places@);
            assert(by_path(rows@) =~= before@.insert(path@, entry));
        }
        *self = Table { rows, places };
    }

    /// The table of the given rows, where a later row overrides an earlier one.
    pub fn from_entries(rows: Vec<(String, Entry<T>)>) -> (r: Table<T>)
        ensures
            r@ == by_path(rows@),
    {
        let ghost all = rows@;
        let mut table = Table::new();
        let mut reversed: Vec<(String, Entry<T>)> = reverse(rows);
        assert(all.take(0) =~= seq![]);
        while reversed.len() > 0
            invariant
                reversed.len() <= all.len(),
                reversed@ == all.reverse().take(reversed.len() as int),
                table@ == by_path(all.take(all.len() - reversed.len())),
            decreases reversed.len(),
        {
            let ghost left = reversed@;
            if let Some((path, entry)) = reversed.pop() {
                proof {
                    let done = all.len() - left.len();
                    assert(left.last() == all[done]);
                    assert(all.take(done + 1).drop_last() =~= all.take(done));
                    assert(all.take(done + 1).last() == all[done]);
                    assert(reversed@ =~= all.reverse().take(reversed.len() as int));
                }
                table.insert(path, entry);
            }
        }
        assert(all.take(all.len() as int) =~= all);
        table
    }

    /// The rows of the table.
    pub fn entries(&self) -> (r: &Vec<(String, Entry<T>)>)
        ensures
            by_path(r@) == self@,
            has_distinct_paths(r@),
            forall|i: int|
                0 <= i < r@.len() ==> self@.contains_key((#[trigger] r@[i]).0@) && self@[r@[i].0@] == r@[i].1,
            forall|path: Seq<char>| #[trigger]
                self@.contains_key(path) ==> exists|i: int|
                    0 <= i < r@.len() && (#[trigger] r@[i]).0@ == path,
    {
        proof {
            use_type_invariant(self);
            lemma_by_path_finds(self.rows@, self.places@);
            assert forall|path: Seq<char>| #[trigger] self@.contains_key(path) implies exists|i: int|
                0 <= i < self.rows@.len() && (#[trigger] self.rows@[i]).0@ == path by {
                assert(self.places@.contains_key(path));
                assert(self.rows@[self.places@[path] as int].0@ == path);
            }
        }
        &self.rows
    }

    /// Drops the entry of every path that is neither in `kept` nor absent from
    /// `gone`, and tells whether there was one.
    pub fn retain(&mut self, kept: &StringHashMap<()>, gone: &StringHashMap<()>) -> (r: bool)
        ensures
            final(self)@ == surviving(old(self)@, kept@.dom(), gone@.dom()),
            r <==> final(self)@ != old(self)@,
    {
        let mut taken = Table::new();
        std::mem::swap(self, &mut taken);
        let ghost before = taken@;
        proof {
            use_type_invariant(&taken);
            lemma_by_path_finds(taken.rows@, taken.places@);
        }
        let ghost all = taken.rows@;
        let ghost places = taken.places@;
        let mut reversed: Vec<(String, Entry<T>)> = reverse(taken.rows);
        let mut table = Table::new();
        let mut dropped = false;
        assert(all.take(0) =~= seq![]);
        assert(surviving(by_path(all.take(0)), kept@.dom(), gone@.dom()) =~= Map::empty());
        while reversed.len() > 0
            invariant
                reversed.len() <= all.len(),
                reversed@ == all.reverse().take(reversed.len() as int),
                is_index(all, places),
                table@ == surviving(
                    by_path(all.take(all.len() - reversed.len())),
                    kept@.dom(),
                    gone@.dom(),
                ),
                dropped <==> exists|i: int|
                    0 <= i < all.len() - reversed.len() && !survives(
                        (#[trigger] all[i]).0@,
                        kept@.dom(),
                        gone@.dom(),
                    ),
            decreases reversed.len(),
        {
            let ghost left = reversed@;
            let ghost done = all.len() - left.len();
            let ghost earlier = by_path(all.take(done));
            if let Some((path, entry)) = reversed.pop() {
                proof {
                    assert(left.last() == all[done]);
                    assert(all.take(done + 1).drop_last() =~= all.take(done));
                    assert(all.take(done + 1).last() == all[done]);
                    assert(reversed@ =~= all.reverse().take(reversed.len() as int));
                    lemma_not_earlier(all, places, done);
                }
                if kept.contains_key(path.as_str()) || !gone.contains_key(path.as_str()) {
                    table.insert(path, entry);
                } else {
                    dropped = true;
                    assert(!survives(all[done].0@, kept@.dom(), gone@.dom()));
                }
                assert(table@ =~= surviving(
                    earlier.insert(all[done].0@, all[done].1),
                    kept@.dom(),
                    gone@.dom(),
                ));
            }
        }
        proof {
            assert(all.take(all.len() as int) =~= all);
            if dropped {
                let i = choose|i: int|
                    0 <= i < all.len() && !survives((#[trigger] all[i]).0@, kept@.dom(), gone@.dom());
                assert(before.contains_key(all[i].0@));
                assert(!table@.contains_key(all[i].0@));
            } else {
                assert forall|path: Seq<char>| before.contains_key(path) implies survives(
                    path,
                    kept@.dom(),
                    gone@.dom(),
                ) by {
                    assert(places.contains_key(path));
                    assert(all[places[path] as int].0@ == path);
                }
                assert(table@ =~= before);
            }
        }
        *self = table;
        dropped
    }
}

/// Whether the entry of `path` survives: it was kept on purpose, or is not gone.
pub open spec fn survives(path: Seq<char>, kept: Set<Seq<char>>, gone: Set<Seq<char>>) -> bool {
    kept.contains(path) || !gone.contains(path)
}

/// The entries that survive.
pub open spec fn surviving<T>(
    entries: Map<Seq<char>, Entry<T>>,
    kept: Set<Seq<char>>,
    gone: Set<Seq<char>>,
) -> Map<Seq<char>, Entry<T>> {
    entries.restrict(Set::new(|path: Seq<char>| survives(path, kept, gone)))
}

proof fn lemma_not_earlier<T>(
    rows: Seq<(String, Entry<T>)>,
    places: Map<Seq<char>, usize>,
    n: int,
)
    requires
        is_index(rows, places),
        0 <= n < rows.len(),
    ensures
        !by_path(rows.take(n)).contains_key(rows[n].0@),
{
    lemma_not_among(rows.take(n), rows[n].0@);
}

proof fn lemma_not_among<T>(rows: Seq<(String, Entry<T>)>, path: Seq<char>)
    requires
        forall|i: int| 0 <= i < rows.len() ==> (#[trigger] rows[i]).0@ != path,
    ensures
        !by_path(rows).contains_key(path),
    decreases rows.len(),
{
    if rows.len() > 0 {
        assert(rows[rows.len() - 1].0@ != path);
        assert forall|i: int| 0 <= i < rows.drop_last().len() implies (#[trigger] rows.drop_last()[i]).0@ != path by {
            assert(rows[i].0@ != path);
        }
        lemma_not_among(rows.drop_last(), path);
    }
}

/// The items in reverse order.
pub(crate) fn reverse<A>(items: Vec<A>) -> (r: Vec<A>)
    ensures
        r@ == items@.reverse(),
{
    let mut rest = items;
    let mut out: Vec<A> = Vec::new();
    while rest.len() > 0
        invariant
            rest.len() + out.len() == items@.len(),
            rest@ == items@.take(rest.len() as int),
            out@ == items@.reverse().take(out.len() as int),
        decreases rest.len(),
    {
        let ghost left = rest@;
        if let Some(item) = rest.pop() {
            out.push(item);
            assert(rest@ =~= items@.take(rest.len() as int));
            assert(out@ =~= items@.reverse().take(out.len() as int));
        }
    }
    assert(items@.reverse().take(out.len() as int) =~= items@.reverse());
    out
}

/// Whether no two rows are of one path.
pub open spec fn has_distinct_paths<T>(rows: Seq<(String, Entry<T>)>) -> bool {
    forall|i: int, j: int|
        0 <= i < j < rows.len() ==> (#[trigger] rows[i]).0@ != (#[trigger] rows[j]).0@
}

/// Whether every row of `some` is among `others`.
pub open spec fn are_among<T>(some: Seq<(String, Entry<T>)>, others: Seq<(String, Entry<T>)>) -> bool {
    forall|i: int|
        0 <= i < some.len() ==> exists|j: int|
            0 <= j < others.len() && (#[trigger] others[j]).0@ == (#[trigger] some[i]).0@ && others[j].1
                == some[i].1
}

/// A table is the same whatever order its rows come in.
pub proof fn law_order_of_rows_does_not_matter<T>(
    first: Seq<(String, Entry<T>)>,
    second: Seq<(String, Entry<T>)>,
)
    requires
        has_distinct_paths(first),
        has_distinct_paths(second),
        are_among(first, second),
        are_among(second, first),
    ensures
        by_path(first) == by_path(second),
{
    lemma_rows_by_path(first);
    lemma_rows_by_path(second);
    assert forall|path: Seq<char>| by_path(first).contains_key(path) implies by_path(second).contains_key(
        path,
    ) && by_path(first)[path] == by_path(second)[path] by {
        let i = choose|i: int| 0 <= i < first.len() && (#[trigger] first[i]).0@ == path;
        let j = choose|j: int|
            0 <= j < second.len() && (#[trigger] second[j]).0@ == first[i].0@ && second[j].1 == first[i].1;
        assert(second[j].0@ == path);
    }
    assert forall|path: Seq<char>| by_path(second).contains_key(path) implies by_path(first).contains_key(
        path,
    ) by {
        let i = choose|i: int| 0 <= i < second.len() && (#[trigger] second[i]).0@ == path;
        let j = choose|j: int|
            0 <= j < first.len() && (#[trigger] first[j]).0@ == second[i].0@ && first[j].1 == second[i].1;
        assert(first[j].0@ == path);
    }
    assert(by_path(first) =~= by_path(second));
}

proof fn lemma_rows_by_path<T>(rows: Seq<(String, Entry<T>)>)
    requires
        has_distinct_paths(rows),
    ensures
        forall|i: int|
            0 <= i < rows.len() ==> by_path(rows).contains_key((#[trigger] rows[i]).0@) && by_path(
                rows,
            )[rows[i].0@] == rows[i].1,
        forall|path: Seq<char>| #[trigger]
            by_path(rows).contains_key(path) ==> exists|i: int|
                0 <= i < rows.len() && (#[trigger] rows[i]).0@ == path,
    decreases rows.len(),
{
    if rows.len() > 0 {
        let shorter = rows.drop_last();
        assert forall|i: int, j: int| 0 <= i < j < shorter.len() implies (#[trigger] shorter[i]).0@ != (
        #[trigger] shorter[j]).0@ by {
            assert(rows[i].0@ != rows[j].0@);
        }
        lemma_rows_by_path(shorter);
        let last = rows.len() - 1;
        assert(rows[last] == rows.last());
        assert forall|i: int| 0 <= i < rows.len() implies by_path(rows).contains_key((#[trigger] rows[i]).0@)
            && by_path(rows)[rows[i].0@] == rows[i].1 by {
            if i < last {
                assert(shorter[i] == rows[i]);
                assert(rows[i].0@ != rows[last].0@);
            }
        }
        assert forall|path: Seq<char>| #[trigger] by_path(rows).contains_key(path) implies exists|i: int|
            0 <= i < rows.len() && (#[trigger] rows[i]).0@ == path by {
            if path == rows.last().0@ {
                assert(rows[last].0@ == path);
            } else {
                assert(by_path(shorter).contains_key(path));
                let i = choose|i: int| 0 <= i < shorter.len() && (#[trigger] shorter[i]).0@ == path;
                assert(shorter[i] == rows[i]);
            }
        }
    }
}

/// What a table has of a path is the last of its rows of that path, and it has
/// nothing of a path that has no row.
pub proof fn law_the_last_row_counts<T>(rows: Seq<(String, Entry<T>)>, i: int, path: Seq<char>)
    requires
        0 <= i < rows.len(),
        forall|j: int| i < j < rows.len() ==> (#[trigger] rows[j]).0@ != rows[i].0@,
    ensures
        by_path(rows).contains_key(rows[i].0@),
        by_path(rows)[rows[i].0@] == rows[i].1,
        by_path(rows).contains_key(path) <==> exists|j: int|
            0 <= j < rows.len() && (#[trigger] rows[j]).0@ == path,
    decreases rows.len(),
{
    let last = rows.len() - 1;
    let shorter = rows.drop_last();
    assert(rows[last] == rows.last());
    law_a_table_has_what_has_a_row(rows, path);
    if i < last {
        assert(shorter[i] == rows[i]);
        assert(rows[last].0@ != rows[i].0@);
        assert forall|j: int| i < j < shorter.len() implies (#[trigger] shorter[j]).0@ != shorter[i].0@ by {
            assert(shorter[j] == rows[j]);
        }
        law_the_last_row_counts(shorter, i, path);
    }
}

/// A table has something of a path exactly where one of its rows is of that path.
pub proof fn law_a_table_has_what_has_a_row<T>(rows: Seq<(String, Entry<T>)>, path: Seq<char>)
    ensures
        by_path(rows).contains_key(path) <==> exists|j: int|
            0 <= j < rows.len() && (#[trigger] rows[j]).0@ == path,
    decreases rows.len(),
{
    if rows.len() > 0 {
        let last = rows.len() - 1;
        let shorter = rows.drop_last();
        law_a_table_has_what_has_a_row(shorter, path);
        assert(rows[last] == rows.last());
        if exists|j: int| 0 <= j < shorter.len() && (#[trigger] shorter[j]).0@ == path {
            let j = choose|j: int| 0 <= j < shorter.len() && (#[trigger] shorter[j]).0@ == path;
            assert(rows[j].0@ == path);
        }
        if exists|j: int| 0 <= j < rows.len() && (#[trigger] rows[j]).0@ == path {
            let j = choose|j: int| 0 <= j < rows.len() && (#[trigger] rows[j]).0@ == path;
            if j < last {
                assert(shorter[j].0@ == path);
            }
        }
    }
}

/// Of the entries, those of a path that is gone and was not kept on purpose are
/// dropped, and the others stay as they are.
pub proof fn law_only_the_gone_are_dropped<T>(
    entries: Map<Seq<char>, Entry<T>>,
    kept: Set<Seq<char>>,
    gone: Set<Seq<char>>,
    path: Seq<char>,
)
    ensures
        surviving(entries, kept, gone).contains_key(path) <==> entries.contains_key(path) && !(gone.contains(path)
            && !kept.contains(path)),
        surviving(entries, kept, gone).contains_key(path) ==> surviving(entries, kept, gone)[path]
            == entries[path],
{
}

} // verus!

//! Unix paths as text: `/` stands between their parts, and a path that starts
//! with it starts at the root.

use vstd::prelude::*;

use crate::text;

verus! {

/// The texts between the slashes of `s`: one more than it has slashes.
pub open spec fn parts(s: Seq<char>) -> Seq<Seq<char>>
    decreases s.len(),
{
    if s.len() == 0 {
        seq![seq![]]
    } else if s.last() == '/' {
        parts(s.drop_last()).push(seq![])
    } else {
        let before = parts(s.drop_last());
        before.drop_last().push(before.last().push(s.last()))
    }
}

/// Whether a part names something: empty parts and `.` name nothing.
pub open spec fn names_something(part: Seq<char>) -> bool {
    part.len() > 0 && part != seq!['.']
}

/// The parts of `s` that name something, in order.
pub open spec fn names(s: Seq<char>) -> Seq<Seq<char>> {
    parts(s).filter(|part: Seq<char>| names_something(part))
}

/// What a path starts from: the root, the current directory spelled out, or nothing.
pub open spec fn anchor(path: Seq<char>) -> Seq<Seq<char>> {
    if path.len() > 0 && path[0] == '/' {
        seq![seq!['/']]
    } else if parts(path)[0] == seq!['.'] {
        seq![seq!['.']]
    } else {
        seq![]
    }
}

/// The components of a path: what it starts from, and the names on the way.
pub open spec fn components(path: Seq<char>) -> Seq<Seq<char>> {
    anchor(path) + names(path)
}

/// Whether `path` is `base` or lies inside it.
pub open spec fn is_within(path: Seq<char>, base: Seq<char>) -> bool {
    components(base).is_prefix_of(components(path))
}

proof fn lemma_parts_not_empty(s: Seq<char>)
    ensures
        parts(s).len() > 0,
    decreases s.len(),
{
    if s.len() > 0 {
        lemma_parts_not_empty(s.drop_last());
    }
}

/// The texts between the slashes of `s`.
fn split(s: &str) -> (r: Vec<String>)
    ensures
        text::contents(r@) == parts(s@),
{
    let mut done: Vec<String> = Vec::new();
    let mut current = String::new();
    let ghost mut seen: Seq<char> = seq![];
    assert(text::contents(done@).push(current@) =~= parts(seen));
    for c in it: s.chars()
        invariant
            seen == s@.take(it.index() as int),
            it.seq() == s@,
            text::contents(done@).push(current@) == parts(seen),
    {
        let ghost before = seen;
        proof {
            seen = seen.push(c);
            assert(seen.drop_last() =~= before);
            assert(seen =~= s@.take(it.index() + 1));
            assert(parts(before).drop_last() =~= text::contents(done@));
            assert(parts(before).last() == current@);
        }
        if c == '/' {
            let ghost finished = done@.push(current);
            done.push(current);
            current = String::new();
            assert(text::contents(finished) =~= parts(before));
            assert(text::contents(done@).push(current@) =~= parts(seen));
        } else {
            current.push(c);
            assert(text::contents(done@).push(current@) =~= parts(seen));
        }
    }
    assert(seen =~= s@);
    let ghost all = done@.push(current);
    done.push(current);
    assert(text::contents(all) =~= parts(s@));
    done
}

/// The text made of `c` alone.
fn one(c: char) -> (r: String)
    ensures
        r@ == seq![c],
{
    let mut text = String::new();
    text.push(c);
    assert(text@ =~= seq![c]);
    text
}

/// The components of `path`.
fn split_components(path: &str) -> (r: Vec<String>)
    ensures
        text::contents(r@) == components(path@),
{
    let pieces = split(path);
    let dot = one('.');
    let mut out: Vec<String> = Vec::new();
    proof {
        lemma_parts_not_empty(path@);
        assert(text::contents(pieces@)[0] == pieces@[0]@);
    }
    if path.unicode_len() > 0 && path.get_char(0) == '/' {
        out.push(one('/'));
    } else if pieces[0] == dot {
        out.push(one('.'));
    }
    assert(text::contents(out@) =~= anchor(path@));
    let ghost keep = |part: Seq<char>| names_something(part);
    let ghost start = out@;
    let mut i: usize = 0;
    assert(parts(path@).take(0) =~= seq![]);
    reveal(Seq::filter);
    assert(text::contents(out@) =~= text::contents(start) + parts(path@).take(0).filter(keep));
    while i < pieces.len()
        invariant
            i <= pieces.len(),
            text::contents(pieces@) == parts(path@),
            dot@ == seq!['.'],
            keep == (|part: Seq<char>| names_something(part)),
            text::contents(out@) == text::contents(start) + parts(path@).take(i as int).filter(keep),
        decreases pieces.len() - i,
    {
        let ghost before = out@;
        proof {
            assert(parts(path@).take(i + 1) =~= parts(path@).take(i as int).push(pieces@[i as int]@));
            lemma_filter_push(parts(path@).take(i as int), pieces@[i as int]@, keep);
        }
        if pieces[i].as_str().unicode_len() > 0 && !(pieces[i] == dot) {
            out.push(pieces[i].clone());
            assert(text::contents(out@) =~= text::contents(before).push(pieces@[i as int]@));
        }
        assert(text::contents(out@) =~= text::contents(start) + parts(path@).take(i + 1).filter(keep));
        i += 1;
    }
    assert(parts(path@).take(i as int) =~= parts(path@));
    out
}

/// Whether `path` is `base` or lies inside it, by whole components.
pub fn starts_with(path: &str, base: &str) -> (r: bool)
    ensures
        r == is_within(path@, base@),
{
    let inner = split_components(path);
    let outer = split_components(base);
    assert(text::contents(inner@).len() == inner.len());
    assert(text::contents(outer@).len() == outer.len());
    if outer.len() > inner.len() {
        return false;
    }
    let mut i: usize = 0;
    while i < outer.len()
        invariant
            i <= outer.len() <= inner.len(),
            text::contents(inner@) == components(path@),
            text::contents(outer@) == components(base@),
            forall|j: int| 0 <= j < i ==> components(base@)[j] == components(path@)[j],
        decreases outer.len() - i,
    {
        assert(components(base@)[i as int] == outer@[i as int]@);
        assert(components(path@)[i as int] == inner@[i as int]@);
        if !(outer[i] == inner[i]) {
            assert(components(path@).take(outer@.len() as int)[i as int] == inner@[i as int]@);
            return false;
        }
        i += 1;
    }
    assert(text::contents(inner@).len() == inner.len());
    assert(text::contents(outer@).len() == outer.len());
    assert(components(base@) =~= components(path@).take(outer@.len() as int));
    true
}

/// `rest` looked up from `dir`: `rest` itself where it starts at the root.
pub open spec fn joined(dir: Seq<char>, rest: Seq<char>) -> Seq<char> {
    if rest.len() > 0 && rest[0] == '/' {
        rest
    } else if dir.len() == 0 || dir.last() == '/' {
        dir + rest
    } else {
        dir.push('/') + rest
    }
}

/// `rest` looked up from `dir`.
pub fn join(dir: &str, rest: &str) -> (r: String)
    ensures
        r@ == joined(dir@, rest@),
{
    if rest.unicode_len() > 0 && rest.get_char(0) == '/' {
        return rest.to_owned();
    }
    let mut out = dir.to_owned();
    let n: usize = dir.unicode_len();
    if n > 0 && dir.get_char(n - 1) != '/' {
        out.push('/');
    }
    out.append(rest);
    out
}

/// Every path lies within itself.
pub proof fn law_within_itself(path: Seq<char>)
    ensures
        is_within(path, path),
{
}

/// What lies within a path lies within everything that path lies within.
pub proof fn law_within_is_transitive(path: Seq<char>, middle: Seq<char>, base: Seq<char>)
    requires
        is_within(path, middle),
        is_within(middle, base),
    ensures
        is_within(path, base),
{
    let n = components(base).len() as int;
    assert(components(middle).subrange(0, n) =~= components(path).subrange(0, n));
}

/// Whatever is looked up from a directory lies within that directory, unless it
/// starts at the root.
pub proof fn law_joined_lies_within(dir: Seq<char>, rest: Seq<char>)
    requires
        rest.len() > 0 ==> rest[0] != '/',
    ensures
        is_within(joined(dir, rest), dir),
{
    if dir.len() == 0 {
        assert(components(dir) =~= seq![]) by {
            assert(dir =~= seq![]);
            lemma_names_of_empty();
            assert(parts(dir)[0].len() == 0);
        }
    } else if dir.last() == '/' {
        let a = dir.drop_last();
        assert(a.push('/') =~= dir);
        lemma_components_of_joined(a, rest);
        lemma_components_of_joined(a, seq![]);
        assert(a.push('/') + Seq::<char>::empty() =~= dir);
        assert(names(seq![]) =~= seq![]) by {
            lemma_names_of_empty();
        }
        assert(components(dir) =~= components(joined(dir, rest)).subrange(
            0,
            components(dir).len() as int,
        ));
    } else {
        lemma_components_of_joined(dir, rest);
        assert(anchor(dir) =~= anchor(dir.push('/')));
        assert(components(dir) =~= components(joined(dir, rest)).subrange(
            0,
            components(dir).len() as int,
        ));
    }
}

/// Slashes at the end of a path change nothing.
pub proof fn law_trailing_slash(path: Seq<char>)
    requires
        path.len() > 0,
    ensures
        components(path.push('/')) == components(path),
{
    lemma_components_of_joined(path, seq![]);
    lemma_names_of_empty();
    assert(path.push('/') + Seq::<char>::empty() =~= path.push('/'));
    assert(components(path.push('/')) =~= components(path));
}

/// A name that merely begins like the last name of a path is another name: the
/// longer path does not lie within the shorter.
pub proof fn law_longer_name_lies_outside(base: Seq<char>, more: Seq<char>)
    requires
        names_something(parts(base).last()),
        more.len() > 0,
        !more.contains('/'),
    ensures
        !is_within(base + more, base),
{
    lemma_parts_of_extended(base, more);
    lemma_parts_not_empty(base);
    let longer = parts(base).last() + more;
    let before = parts(base).drop_last();
    let keep = |part: Seq<char>| names_something(part);
    assert(parts(base) =~= before.push(parts(base).last()));
    assert(longer.len() >= 2);
    lemma_filter_push(before, parts(base).last(), keep);
    lemma_filter_push(before, longer, keep);
    let n = before.filter(keep).len() as int;
    assert(names(base)[n] == parts(base).last());
    assert(names(base + more)[n] == longer);
    assert(anchor(base + more).len() == anchor(base).len()) by {
        assert((base + more)[0] == base[0]);
        if before.len() == 0 {
            assert(parts(base)[0] == parts(base).last());
            assert(parts(base + more)[0] == longer);
        } else {
            assert(parts(base)[0] == before[0]);
            assert(parts(base + more)[0] == before[0]);
        }
    }
    let k = anchor(base).len() + n;
    assert(components(base)[k] == parts(base).last());
    assert(components(base + more)[k] == longer);
    if is_within(base + more, base) {
        assert(components(base)[k] == components(base + more).subrange(
            0,
            components(base).len() as int,
        )[k]);
    }
}

proof fn lemma_parts_of_extended(base: Seq<char>, more: Seq<char>)
    requires
        !more.contains('/'),
    ensures
        parts(base + more) == parts(base).drop_last().push(parts(base).last() + more),
    decreases more.len(),
{
    lemma_parts_not_empty(base);
    if more.len() == 0 {
        assert(base + more =~= base);
        assert(parts(base).last() + more =~= parts(base).last());
        assert(parts(base).drop_last().push(parts(base).last()) =~= parts(base));
    } else {
        let shorter = more.drop_last();
        assert(more[more.len() - 1] == more.last());
        assert forall|i: int| 0 <= i < shorter.len() implies shorter[i] != '/' by {
            assert(more[i] == shorter[i]);
        }
        lemma_parts_of_extended(base, shorter);
        assert((base + more).drop_last() =~= base + shorter);
        assert((base + more).last() == more.last());
        assert((parts(base).last() + shorter).push(more.last()) =~= parts(base).last() + more);
        assert(parts(base + shorter).drop_last() =~= parts(base).drop_last());
    }
}

proof fn lemma_names_of_empty()
    ensures
        names(Seq::<char>::empty()) == Seq::<Seq<char>>::empty(),
{
    let keep = |part: Seq<char>| names_something(part);
    let nothing = Seq::<Seq<char>>::empty();
    reveal(Seq::filter);
    lemma_filter_push(nothing, Seq::<char>::empty(), keep);
    assert(parts(Seq::<char>::empty()) =~= nothing.push(Seq::<char>::empty()));
}

proof fn lemma_parts_of_joined(a: Seq<char>, b: Seq<char>)
    ensures
        parts(a.push('/') + b) == parts(a) + parts(b),
    decreases b.len(),
{
    if b.len() == 0 {
        assert(a.push('/') + b =~= a.push('/'));
        assert(a.push('/').drop_last() =~= a);
        assert(parts(a).push(seq![]) =~= parts(a) + parts(b));
    } else {
        let whole = a.push('/') + b;
        assert(whole.drop_last() =~= a.push('/') + b.drop_last());
        assert(whole.last() == b.last());
        lemma_parts_of_joined(a, b.drop_last());
        lemma_parts_not_empty(b.drop_last());
        assert(parts(whole) =~= parts(a) + parts(b));
    }
}

proof fn lemma_components_of_joined(a: Seq<char>, b: Seq<char>)
    ensures
        components(a.push('/') + b) == anchor(a.push('/')) + names(a) + names(b),
        a.len() > 0 ==> anchor(a.push('/')) == anchor(a),
{
    let whole = a.push('/') + b;
    lemma_parts_of_joined(a, b);
    lemma_parts_of_joined(a, seq![]);
    lemma_parts_not_empty(a);
    assert(a.push('/') + Seq::<char>::empty() =~= a.push('/'));
    assert(whole[0] == a.push('/')[0]);
    assert(parts(whole)[0] == parts(a)[0]);
    assert(anchor(whole) == anchor(a.push('/')));
    let keep = |part: Seq<char>| names_something(part);
    Seq::filter_distributes_over_add(parts(a), parts(b), keep);
    assert(components(whole) =~= anchor(a.push('/')) + names(a) + names(b));
}

proof fn lemma_filter_push<A>(s: Seq<A>, a: A, keep: spec_fn(A) -> bool)
    ensures
        s.push(a).filter(keep) == if keep(a) {
            s.filter(keep).push(a)
        } else {
            s.filter(keep)
        },
{
    reveal(Seq::filter);
    assert(s.push(a).drop_last() =~= s);
}

/// The text that names make with a slash between one and the next.
pub open spec fn spelled(names: Seq<Seq<char>>) -> Seq<char>
    decreases names.len(),
{
    if names.len() == 0 {
        seq![]
    } else if names.len() == 1 {
        names[0]
    } else {
        spelled(names.drop_last()).push('/') + names.last()
    }
}

/// Whether every text in `names` can name a directory: there is something to it,
/// it is no dot, and it has no slash.
pub open spec fn are_names(names: Seq<Seq<char>>) -> bool {
    forall|i: int|
        0 <= i < names.len() ==> (#[trigger] names[i]).len() > 0 && names[i] != seq!['.']
            && !names[i].contains('/')
}

/// The path that leads along `names` from the root.
pub open spec fn from_root(names: Seq<Seq<char>>) -> Seq<char> {
    seq!['/'] + spelled(names)
}

/// The parts of a text, with a slash between one and the next, make up the text,
/// and none of them has a slash.
pub proof fn law_parts_make_up_the_text(s: Seq<char>)
    ensures
        spelled(parts(s)) == s,
        forall|i: int| 0 <= i < parts(s).len() ==> !(#[trigger] parts(s)[i]).contains('/'),
    decreases s.len(),
{
    lemma_parts_not_empty(s);
    if s.len() == 0 {
        assert(parts(s)[0] =~= seq![]);
        assert(spelled(parts(s)) =~= s);
    } else {
        let before = parts(s.drop_last());
        law_parts_make_up_the_text(s.drop_last());
        lemma_parts_not_empty(s.drop_last());
        let last = s.last();
        if last == '/' {
            assert(parts(s).drop_last() =~= before);
            assert(spelled(parts(s)) =~= s);
        } else {
            let longer = before.last().push(last);
            assert(parts(s).drop_last() =~= before.drop_last());
            assert(before[before.len() - 1] == before.last());
            assert(!longer.contains('/')) by {
                assert forall|i: int| 0 <= i < longer.len() implies longer[i] != '/' by {
                    if i < before.last().len() {
                        assert(before.last()[i] == longer[i]);
                    }
                }
            }
            assert forall|i: int| 0 <= i < parts(s).len() implies !(#[trigger] parts(s)[i]).contains('/') by {
                if i < before.len() - 1 {
                    assert(parts(s)[i] == before[i]);
                }
            }
            if before.len() == 1 {
                assert(spelled(before) == before[0]);
                assert(spelled(parts(s)) =~= s);
            } else {
                assert(spelled(before) == spelled(before.drop_last()).push('/') + before.last());
                assert(spelled(parts(s)) == spelled(before.drop_last()).push('/') + longer);
                assert(spelled(parts(s)) =~= spelled(before).push(last));
                assert(s.drop_last().push(last) =~= s);
            }
        }
    }
}

/// A path along some names lies within another exactly where it leads along the
/// names of the other first, both from the root or neither. So `/w/one/sub` lies
/// within `/w/one` and within the root, and not within `/w/two` or `/w/on`.
pub proof fn law_within_goes_by_whole_names(inner: Seq<Seq<char>>, outer: Seq<Seq<char>>)
    requires
        are_names(inner),
        are_names(outer),
    ensures
        is_within(from_root(inner), from_root(outer)) <==> outer.is_prefix_of(inner),
        is_within(spelled(inner), spelled(outer)) <==> outer.is_prefix_of(inner),
        outer.len() > 0 ==> !is_within(from_root(inner), spelled(outer)),
        !is_within(spelled(inner), from_root(outer)),
{
    lemma_components_of_names(inner);
    lemma_components_of_names(outer);
    let root = seq![seq!['/']];
    let a = root + inner;
    let b = root + outer;
    assert(a[0] == seq!['/'] && b[0] == seq!['/']);
    if outer.is_prefix_of(inner) {
        assert(b =~= a.subrange(0, b.len() as int));
        assert(outer =~= inner.subrange(0, outer.len() as int));
    }
    if b.is_prefix_of(a) {
        assert forall|i: int| 0 <= i < outer.len() implies outer[i] == inner[i] by {
            assert(b[i + 1] == a.subrange(0, b.len() as int)[i + 1]);
        }
        assert(outer =~= inner.subrange(0, outer.len() as int));
    }
    if outer.len() > 0 && outer.is_prefix_of(a) {
        assert(outer[0] == a.subrange(0, outer.len() as int)[0]);
        assert(outer[0][0] == '/');
        assert(outer[0].contains('/'));
    }
    if b.is_prefix_of(inner) {
        assert(b[0] == inner.subrange(0, b.len() as int)[0]);
        assert(inner[0] == seq!['/']);
        assert(inner[0][0] == '/');
        assert(inner[0].contains('/'));
    }
}

proof fn lemma_parts_of_names(names: Seq<Seq<char>>)
    requires
        are_names(names),
        names.len() > 0,
    ensures
        parts(spelled(names)) == names,
    decreases names.len(),
{
    let last = names.last();
    assert(names[names.len() - 1] == last);
    lemma_parts_of_extended(seq![], last);
    assert(Seq::<char>::empty() + last =~= last);
    assert(parts(Seq::<char>::empty()).last() + last =~= last);
    assert(parts(last) =~= seq![last]);
    if names.len() == 1 {
        assert(names =~= seq![last]);
    } else {
        let before = names.drop_last();
        assert forall|i: int| 0 <= i < before.len() implies (#[trigger] before[i]).len() > 0 && before[i]
            != seq!['.'] && !before[i].contains('/') by {
            assert(before[i] == names[i]);
        }
        lemma_parts_of_names(before);
        lemma_parts_of_joined(spelled(before), last);
        assert(before + seq![last] =~= names);
    }
}

proof fn lemma_all_kept(names: Seq<Seq<char>>)
    requires
        are_names(names),
    ensures
        names.filter(|part: Seq<char>| names_something(part)) == names,
    decreases names.len(),
{
    reveal(Seq::filter);
    if names.len() > 0 {
        let before = names.drop_last();
        assert(names[names.len() - 1] == names.last());
        assert forall|i: int| 0 <= i < before.len() implies (#[trigger] before[i]).len() > 0 && before[i]
            != seq!['.'] && !before[i].contains('/') by {
            assert(before[i] == names[i]);
        }
        lemma_all_kept(before);
        assert(before.push(names.last()) =~= names);
    }
}

proof fn lemma_components_of_names(names: Seq<Seq<char>>)
    requires
        are_names(names),
    ensures
        components(spelled(names)) == names,
        components(from_root(names)) == seq![seq!['/']] + names,
{
    let text = spelled(names);
    let keep = |part: Seq<char>| names_something(part);
    let nothing = Seq::<char>::empty();
    lemma_all_kept(names);
    lemma_names_of_empty();
    if names.len() == 0 {
        assert(text =~= nothing);
        assert(parts(text)[0].len() == 0);
        assert(components(text) =~= names);
    } else {
        lemma_parts_of_names(names);
        lemma_first_char(names);
        assert(parts(text)[0] == names[0]);
        assert(components(text) =~= names);
    }
    assert(nothing.push('/') + text =~= from_root(names));
    lemma_components_of_joined(nothing, text);
    assert(crate::path::names(text) =~= names);
    assert(components(from_root(names)) =~= seq![seq!['/']] + names);
}

proof fn lemma_first_char(names: Seq<Seq<char>>)
    requires
        are_names(names),
        names.len() > 0,
    ensures
        spelled(names).len() > 0,
        spelled(names)[0] != '/',
    decreases names.len(),
{
    assert(names[0].contains(names[0][0]));
    if names.len() > 1 {
        let before = names.drop_last();
        assert(before[0] == names[0]);
        assert forall|i: int| 0 <= i < before.len() implies (#[trigger] before[i]).len() > 0 && before[i]
            != seq!['.'] && !before[i].contains('/') by {
            assert(before[i] == names[i]);
        }
        lemma_first_char(before);
    }
}

/// What stands behind a path and a slash lies within the path.
pub proof fn law_what_follows_a_slash_lies_within(base: Seq<char>, more: Seq<char>)
    ensures
        is_within(base.push('/') + more, base),
{
    if base.len() == 0 {
        assert(base =~= seq![]);
        lemma_names_of_empty();
        assert(parts(base)[0].len() == 0);
        assert(components(base) =~= seq![]);
    } else {
        lemma_components_of_joined(base, more);
        assert(components(base) =~= components(base.push('/') + more).subrange(
            0,
            components(base).len() as int,
        ));
    }
}

/// Neither another slash behind one nor a dot of its own changes where a path
/// leads.
pub proof fn law_slashes_and_dots_lead_nowhere(a: Seq<char>, b: Seq<char>)
    ensures
        components(a.push('/').push('/') + b) == components(a.push('/') + b),
        components(a.push('/').push('.').push('/') + b) == components(a.push('/') + b),
{
    let keep = |part: Seq<char>| names_something(part);
    let nothing = Seq::<char>::empty();
    let dot = seq!['.'];
    lemma_components_of_joined(a, b);
    lemma_components_of_joined(a, nothing.push('/') + b);
    lemma_components_of_joined(a, dot.push('/') + b);
    lemma_names_of_empty();
    lemma_parts_of_joined(nothing, b);
    Seq::filter_distributes_over_add(parts(nothing), parts(b), keep);
    lemma_parts_of_joined(dot, b);
    lemma_parts_of_extended(nothing, dot);
    assert(nothing + dot =~= dot);
    assert(parts(nothing).last() + dot =~= dot);
    assert(parts(dot) =~= seq![dot]);
    Seq::filter_distributes_over_add(parts(dot), parts(b), keep);
    assert(parts(dot).filter(keep) =~= seq![]) by {
        reveal(Seq::filter);
        lemma_filter_push(Seq::<Seq<char>>::empty(), dot, keep);
        assert(parts(dot) =~= Seq::<Seq<char>>::empty().push(dot));
    }
    assert(a.push('/').push('/') + b =~= a.push('/') + (nothing.push('/') + b));
    assert(a.push('/').push('.').push('/') + b =~= a.push('/') + (dot.push('/') + b));
    assert(names(nothing.push('/') + b) =~= names(b));
    assert(names(dot.push('/') + b) =~= names(b));
}

/// What is looked up stands at the end of the path. In front of it stands the
/// directory, unless what is looked up starts at the root, and between them one
/// slash, unless the directory is empty or ends in one.
pub proof fn law_joined_keeps_both(dir: Seq<char>, rest: Seq<char>)
    ensures
        rest.len() <= joined(dir, rest).len(),
        joined(dir, rest).skip(joined(dir, rest).len() - rest.len()) == rest,
        rest.len() > 0 && rest[0] == '/' ==> joined(dir, rest).len() == rest.len(),
        !(rest.len() > 0 && rest[0] == '/') ==> {
            &&& joined(dir, rest).take(dir.len() as int) == dir
            &&& joined(dir, rest).len() == dir.len() + rest.len() + if dir.len() == 0 || dir.last() == '/' {
                0int
            } else {
                1int
            }
            &&& dir.len() > 0 && dir.last() != '/' ==> joined(dir, rest)[dir.len() as int] == '/'
        },
{
    let all = joined(dir, rest);
    assert(all.skip(all.len() - rest.len()) =~= rest);
    if !(rest.len() > 0 && rest[0] == '/') {
        assert(all.take(dir.len() as int) =~= dir);
    }
}

/// The empty path has no components.
pub proof fn law_the_empty_path_leads_nowhere()
    ensures
        components(Seq::<char>::empty()).len() == 0,
{
    lemma_components_of_names(seq![]);
    assert(spelled(seq![]) =~= seq![]);
}

/// The path that leads along `names` from the current directory, spelled out.
pub open spec fn from_here(names: Seq<Seq<char>>) -> Seq<char> {
    seq!['.', '/'] + spelled(names)
}

/// Paths that spell out the current directory lie within one another as others do,
/// and neither within paths that do not, nor the other way round.
pub proof fn law_a_leading_dot_counts(inner: Seq<Seq<char>>, outer: Seq<Seq<char>>)
    requires
        are_names(inner),
        are_names(outer),
    ensures
        is_within(from_here(inner), from_here(outer)) <==> outer.is_prefix_of(inner),
        outer.len() > 0 ==> !is_within(from_here(inner), spelled(outer)),
        !is_within(spelled(inner), from_here(outer)),
        !is_within(from_root(inner), from_here(outer)),
        !is_within(from_here(inner), from_root(outer)),
{
    lemma_components_from_here(inner);
    lemma_components_from_here(outer);
    lemma_components_of_names(inner);
    lemma_components_of_names(outer);
    let here = seq![seq!['.']];
    let root = seq![seq!['/']];
    let a = here + inner;
    let b = here + outer;
    assert(a[0] == seq!['.'] && b[0] == seq!['.']);
    assert(seq!['.'][0] != seq!['/'][0]);
    if outer.is_prefix_of(inner) {
        assert(b =~= a.subrange(0, b.len() as int));
    }
    if b.is_prefix_of(a) {
        assert forall|i: int| 0 <= i < outer.len() implies outer[i] == inner[i] by {
            assert(b[i + 1] == a.subrange(0, b.len() as int)[i + 1]);
        }
        assert(outer =~= inner.subrange(0, outer.len() as int));
    }
    if outer.len() > 0 && outer.is_prefix_of(a) {
        assert(outer[0] == a.subrange(0, outer.len() as int)[0]);
    }
    if b.is_prefix_of(inner) {
        assert(b[0] == inner.subrange(0, b.len() as int)[0]);
        assert(inner[0] == seq!['.']);
    }
    if b.is_prefix_of(root + inner) {
        assert(b[0] == (root + inner).subrange(0, b.len() as int)[0]);
        assert((root + inner)[0] == seq!['/']);
    }
    if (root + outer).is_prefix_of(a) {
        assert((root + outer)[0] == a.subrange(0, (root + outer).len() as int)[0]);
        assert((root + outer)[0] == seq!['/']);
    }
}

proof fn lemma_components_from_here(names: Seq<Seq<char>>)
    requires
        are_names(names),
    ensures
        components(from_here(names)) == seq![seq!['.']] + names,
{
    let dot = seq!['.'];
    let text = spelled(names);
    let keep = |part: Seq<char>| names_something(part);
    let nothing = Seq::<char>::empty();
    lemma_components_of_names(names);
    lemma_components_of_joined(nothing, text);
    lemma_components_of_joined(dot, text);
    lemma_parts_of_extended(nothing, dot);
    assert(nothing + dot =~= dot);
    assert(parts(nothing).last() + dot =~= dot);
    assert(parts(dot) =~= seq![dot]);
    assert(anchor(dot) =~= seq![dot]);
    assert(crate::path::names(dot) =~= seq![]) by {
        reveal(Seq::filter);
        lemma_filter_push(Seq::<Seq<char>>::empty(), dot, keep);
        assert(parts(dot) =~= Seq::<Seq<char>>::empty().push(dot));
    }
    assert(crate::path::names(text) =~= names) by {
        lemma_names_of_empty();
        lemma_all_kept(names);
        if names.len() == 0 {
            assert(text =~= nothing);
        } else {
            lemma_parts_of_names(names);
        }
    }
    assert(dot.push('/') + text =~= from_here(names));
    assert(components(from_here(names)) =~= seq![dot] + names);
}

} // verus!

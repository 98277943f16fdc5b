//! Fuzzy matching of a query against a text.
//!
//! The matcher does the matching. What is stated here of its workings serves to
//! tell the texts on which it would overflow or contradict itself.

use nucleo_matcher::pattern::{Atom, AtomKind, CaseMatching, Normalization, Pattern};
use nucleo_matcher::{chars, Config, Matcher, Utf32Str};
use vstd::prelude::*;

use crate::text;

verus! {

/// How many matched characters the score of a word has room for, whatever each of
/// them brings. A longer match is not tried, though it may bring little enough.
pub const LONGEST_MATCH: usize = 2_520;

/// Whether the last character of `s` is a space that separates words: one with
/// no backslash before it.
pub open spec fn ends_in_separator(s: Seq<char>) -> bool {
    &&& s.len() > 0
    &&& s.last() == ' '
    &&& s.len() > 1 ==> s[s.len() - 2] != '\\'
}

/// The words of a query, of which some may be empty: one more than it has
/// separating spaces.
pub open spec fn words(query: Seq<char>) -> Seq<Seq<char>>
    decreases query.len(),
{
    if query.len() == 0 {
        seq![seq![]]
    } else if ends_in_separator(query) {
        words(query.drop_last()).push(seq![])
    } else {
        let before = words(query.drop_last());
        before.drop_last().push(before.last().push(query.last()))
    }
}

/// The characters that a word of a query looks for, and whether gaps may be
/// between them.
pub uninterp spec fn atom(word: Seq<char>) -> (Seq<char>, bool);

/// How well `haystack` matches one word of a query, `None` where it rules the
/// text out.
pub uninterp spec fn atom_score(word: Seq<char>, haystack: Seq<char>) -> Option<u16>;

/// The first character of each grapheme of a text.
pub uninterp spec fn graphemes(s: Seq<char>) -> Seq<char>;

/// `c` in lower case, by simple case folding.
pub uninterp spec fn folded(c: char) -> char;

/// The plain letter that `c` is read as, where it is a Latin letter with an
/// accent, and `c` otherwise.
pub uninterp spec fn plain(c: char) -> char;

/// How well `haystack` matches `query`, `None` where it does not match.
pub uninterp spec fn fuzzy_score(query: Seq<char>, haystack: Seq<char>) -> Option<u32>;

/// Whether `c` is a lower case letter that is another form of a letter: the
/// final sigma and the like in Greek, the long s, forms of Cyrillic letters,
/// and the lower case of Cherokee, which goes by its upper case.
pub open spec fn is_variant(c: char) -> bool {
    let n = c as u32;
    ||| n == 0xb5
    ||| n == 0x17f
    ||| n == 0x345
    ||| n == 0x3c2
    ||| 0x3d0 <= n <= 0x3d1
    ||| 0x3d5 <= n <= 0x3d6
    ||| 0x3f0 <= n <= 0x3f1
    ||| n == 0x3f5
    ||| 0x13f8 <= n <= 0x13fd
    ||| 0x1c80 <= n <= 0x1c88
    ||| n == 0x1e9b
    ||| n == 0x1fbe
    ||| 0xab70 <= n <= 0xabbf
}

/// Whether a text is matched byte by byte: it is ASCII, or nothing but ASCII is
/// left of it where only the first character of each grapheme counts.
pub open spec fn is_bytewise(haystack: Seq<char>) -> bool {
    vstd::utf8::is_ascii_chars(haystack) || vstd::utf8::is_ascii_chars(graphemes(haystack))
}

/// The units by which a text is matched.
pub open spec fn units(haystack: Seq<char>) -> Seq<char> {
    if is_bytewise(haystack) {
        vstd::utf8::encode_utf8(haystack).map_values(|b: u8| b as char)
    } else {
        graphemes(haystack)
    }
}

/// Whether letters with an accent in the text count as plain ones: not where one
/// of the characters looked for has an accent.
pub open spec fn is_lenient(needle: Seq<char>) -> bool {
    forall|i: int| 0 <= i < needle.len() ==> plain(#[trigger] needle[i]) == needle[i]
}

/// `c` in lower case where it is an ASCII letter.
pub open spec fn ascii_lower(c: char) -> char {
    if 'A' <= c <= 'Z' {
        (c as u32 + 32) as char
    } else {
        c
    }
}

/// What a unit of a text counts as.
pub open spec fn read_as(unit: char, bytewise: bool, lenient: bool) -> char {
    if bytewise {
        ascii_lower(unit)
    } else if lenient {
        folded(plain(unit))
    } else {
        folded(unit)
    }
}

/// What the units of a text count as where some characters are looked for.
pub open spec fn reading(needle: Seq<char>, haystack: Seq<char>) -> Seq<char> {
    units(haystack).map_values(
        |unit: char| read_as(unit, is_bytewise(haystack), is_lenient(needle)),
    )
}

/// How many characters of `needle`, from the first, are found in `s` in their order.
pub open spec fn found(needle: Seq<char>, s: Seq<char>) -> nat
    decreases s.len(),
{
    if s.len() == 0 {
        0
    } else {
        let before = found(needle, s.drop_last());
        if before < needle.len() && s.last() == needle[before as int] {
            before + 1
        } else {
            before
        }
    }
}

/// Whether `needle` stands in `s` as a whole.
pub open spec fn occurs(needle: Seq<char>, s: Seq<char>) -> bool {
    exists|i: int|
        0 <= i <= s.len() - needle.len() && #[trigger] s.subrange(i, i + needle.len()) == needle
}

/// Whether a word may be found in a text. Where it is not, there is no score.
pub open spec fn may_match(word: Seq<char>, haystack: Seq<char>) -> bool {
    let (needle, gaps) = atom(word);
    let read = reading(needle, haystack);
    &&& is_bytewise(haystack) ==> vstd::utf8::is_ascii_chars(word)
    &&& if gaps {
        found(needle, read) == needle.len()
    } else {
        occurs(needle, read)
    }
}

/// Whether a match with gaps is looked for from `start` up to `end`: from the
/// first place for the first character that leaves room for the others, up to
/// behind the last place for the last one.
pub open spec fn is_window(needle: Seq<char>, read: Seq<char>, start: int, end: int) -> bool {
    &&& 0 <= start <= read.len() - needle.len()
    &&& read[start] == needle[0]
    &&& forall|i: int| 0 <= i < start ==> #[trigger] read[i] != needle[0]
    &&& start + 1 < end <= read.len()
    &&& read[end - 1] == needle.last()
    &&& forall|i: int| end <= i < read.len() ==> #[trigger] read[i] != needle.last()
}

/// `n` rounded up to a multiple of `step`.
pub open spec fn rounded_up(n: nat, step: nat) -> nat {
    (n + step - 1) as nat / step * step
}

/// How many bytes the table takes in which `columns` units of a text are compared
/// with `rows` characters.
pub open spec fn table_size(columns: nat, rows: nat) -> nat {
    let cells = (columns + 1 - rows) as nat;
    rounded_up(rounded_up(5 * columns, 2) + 2 * rows, 8) + 8 * cells + cells * rows
}

/// Whether so many units of a text are compared with so many characters in a
/// table, which is left out where it would be too large.
pub open spec fn has_table(columns: nat, rows: nat) -> bool {
    &&& columns * rows <= 102_400
    &&& columns <= 65_535
    &&& rows <= 2_048
    &&& table_size(columns, rows) <= 133_120
}

/// What a unit of a text counts as in the table, where accents matter: a variant
/// counts as itself.
pub open spec fn entered_as(unit: char) -> char {
    if is_variant(unit) {
        unit
    } else {
        folded(unit)
    }
}

/// Whether a match from `start` up to `end` starts, by the table, behind
/// `start`: a variant stands there, and the characters are found nevertheless.
pub open spec fn starts_late(needle: Seq<char>, parts: Seq<char>, start: int, end: int) -> bool {
    let entered = parts.subrange(start, end).map_values(|unit: char| entered_as(unit));
    &&& end - start > needle.len()
    &&& has_table((end - start) as nat, needle.len())
    &&& is_variant(parts[start])
    &&& found(needle, entered) == needle.len()
}

/// Whether the matcher contradicts itself on a word and a text: it looks for a
/// match from a variant of the first character on, and then finds that the
/// match starts behind it.
pub open spec fn clashes(word: Seq<char>, haystack: Seq<char>) -> bool {
    let (needle, gaps) = atom(word);
    &&& gaps
    &&& needle.len() > 1
    &&& !is_lenient(needle)
    &&& !is_bytewise(haystack)
    &&& exists|start: int, end: int| #[trigger]
        is_window(needle, reading(needle, haystack), start, end) && starts_late(
            needle,
            units(haystack),
            start,
            end,
        )
}

/// Whether a text can be scored against one word of a query: its units can be
/// counted in 32 bits, the score has room for a match, and there is no clash.
/// A word that looks for nothing is passed over.
pub open spec fn word_scorable(word: Seq<char>, haystack: Seq<char>) -> bool {
    let (needle, gaps) = atom(word);
    let count = units(haystack).len();
    needle.len() > 0 ==> {
        &&& count <= u32::MAX
        &&& needle.len() <= count ==> needle.len() * count <= usize::MAX
        &&& needle.len() <= LONGEST_MATCH || !may_match(word, haystack)
        &&& !clashes(word, haystack)
    }
}

/// Whether the words after this one are looked at.
pub open spec fn passes(word: Seq<char>, haystack: Seq<char>) -> bool {
    atom(word).0.len() > 0 ==> atom_score(word, haystack) is Some
}

/// What the first `n` words bring.
pub open spec fn points(words: Seq<Seq<char>>, haystack: Seq<char>, n: nat) -> nat
    decreases n,
{
    if n == 0 {
        0
    } else {
        let word = words[n - 1];
        points(words, haystack, (n - 1) as nat) + if atom(word).0.len() > 0 && atom_score(
            word,
            haystack,
        ) is Some {
            atom_score(word, haystack)->0 as nat
        } else {
            0
        }
    }
}

/// Whether a text can be scored against a query: against each word that is
/// looked at, with 32 bits for what they bring together. The words are looked
/// at in turn, up to the first that rules the text out.
pub open spec fn scorable(query: Seq<char>, haystack: Seq<char>) -> bool {
    forall|i: int|
        #![trigger words(query)[i]]
        0 <= i < words(query).len() && (forall|j: int|
            0 <= j < i ==> passes(#[trigger] words(query)[j], haystack)) ==> word_scorable(
            words(query)[i],
            haystack,
        ) && points(words(query), haystack, (i + 1) as nat) <= u32::MAX
}

/// The characters that a word of a query looks for, and whether gaps may be
/// between them.
///
/// Calls `nucleo_matcher::pattern::Atom::parse` on the word, case ignored and
/// Latin letters normalised unless the word asks otherwise, and hands out what
/// `Atom::needle_text` holds and whether the kind is `AtomKind::Fuzzy`. Claimed
/// of them: they depend on the word alone.
#[verifier::external_body]
fn parse_atom(word: &str) -> (r: (Vec<char>, bool))
    ensures
        (r.0@, r.1) == atom(word@),
{
    let atom = Atom::parse(word, CaseMatching::Ignore, Normalization::Smart);
    let gaps = match atom.kind {
        AtomKind::Fuzzy => true,
        AtomKind::Substring => false,
        AtomKind::Prefix => false,
        AtomKind::Postfix => false,
        AtomKind::Exact => false,
        _ => false,
    };
    (atom.needle_text().chars().collect(), gaps)
}

/// How well `haystack` matches one word of a query.
///
/// Calls `nucleo_matcher::pattern::Atom::score` on the word, as `Atom::parse`
/// reads it, and the text, which `Utf32Str::new` takes apart, with a matcher of
/// its own in the default configuration. Claimed of it: on what is scorable it
/// returns, and the score depends on the word and the text alone.
#[verifier::external_body]
fn score_atom(word: &str, haystack: &str) -> (r: Option<u16>)
    requires
        word_scorable(word@, haystack@),
        atom(word@).0.len() > 0,
    ensures
        r == atom_score(word@, haystack@),
{
    Atom::parse(word, CaseMatching::Ignore, Normalization::Smart).score(
        Utf32Str::new(haystack, &mut Vec::new()),
        &mut Matcher::new(Config::DEFAULT),
    )
}

/// The first character of each grapheme of `s`.
///
/// Calls `nucleo_matcher::chars::graphemes`. Claimed of it: the characters depend
/// on the text alone.
#[verifier::external_body]
fn split_graphemes(s: &str) -> (r: Vec<char>)
    ensures
        r@ == graphemes(s@),
{
    chars::graphemes(s).collect()
}

/// `c` in lower case.
///
/// Calls `nucleo_matcher::chars::to_lower_case`. Claimed of it: the result depends
/// on the character alone.
#[verifier::external_body]
fn fold(c: char) -> (r: char)
    ensures
        r == folded(c),
{
    chars::to_lower_case(c)
}

/// The plain letter that `c` is read as.
///
/// Calls `nucleo_matcher::chars::normalize`. Claimed of it: the result depends on
/// the character alone.
#[verifier::external_body]
fn strip(c: char) -> (r: char)
    ensures
        r == plain(c),
{
    chars::normalize(c)
}

/// How well `haystack` matches `query`.
///
/// Calls `nucleo_matcher::pattern::Pattern::parse` on the query, case ignored
/// and Latin letters normalised unless the query asks otherwise, and
/// `Pattern::score` on the text, which `Utf32Str::new` takes apart, with a
/// matcher of its own in the default configuration. Claimed of them: on texts
/// that are scorable they return, and the score depends on the two texts alone.
/// What it is on given texts is left to the matcher.
#[verifier::external_body]
pub(crate) fn score(query: &str, haystack: &str) -> (r: Option<u32>)
    requires
        scorable(query@, haystack@),
    ensures
        r == fuzzy_score(query@, haystack@),
{
    Pattern::parse(query, CaseMatching::Ignore, Normalization::Smart).score(
        Utf32Str::new(haystack, &mut Vec::new()),
        &mut Matcher::new(Config::DEFAULT),
    )
}

/// The words of `query`.
fn split_words(query: &str) -> (r: Vec<String>)
    ensures
        text::contents(r@) == words(query@),
{
    let mut done: Vec<String> = Vec::new();
    let mut current = String::new();
    let mut escaped = false;
    let ghost mut seen: Seq<char> = seq![];
    assert(text::contents(done@).push(current@) =~= words(seen));
    for c in it: query.chars()
        invariant
            seen == query@.take(it.index() as int),
            it.seq() == query@,
            escaped <==> seen.len() > 0 && seen.last() == '\\',
            text::contents(done@).push(current@) == words(seen),
    {
        let ghost before = seen;
        proof {
            seen = seen.push(c);
            assert(seen.drop_last() =~= before);
            assert(seen =~= query@.take(it.index() + 1));
            assert(words(before).drop_last() =~= text::contents(done@));
            assert(words(before).last() == current@);
            assert(before.len() > 0 ==> seen[seen.len() - 2] == before.last());
        }
        if c == ' ' && !escaped {
            let ghost finished = done@.push(current);
            done.push(current);
            current = String::new();
            assert(text::contents(finished) =~= words(before));
            assert(text::contents(done@).push(current@) =~= words(seen));
        } else {
            current.push(c);
            assert(text::contents(done@).push(current@) =~= words(seen));
        }
        escaped = c == '\\';
    }
    assert(seen =~= query@);
    let ghost all = done@.push(current);
    done.push(current);
    assert(text::contents(all) =~= words(query@));
    done
}

/// Whether `c` is ASCII.
fn is_ascii(c: char) -> (r: bool)
    ensures
        r == ('\0' <= c <= '\u{7f}'),
{
    c <= '\u{7f}'
}

/// Whether all of `s` is ASCII.
fn all_ascii(s: &Vec<char>) -> (r: bool)
    ensures
        r == vstd::utf8::is_ascii_chars(s@),
{
    let mut i: usize = 0;
    while i < s.len()
        invariant
            i <= s.len(),
            forall|j: int| 0 <= j < i ==> '\0' <= #[trigger] s@[j] <= '\u{7f}',
        decreases s.len() - i,
    {
        if !is_ascii(s[i]) {
            return false;
        }
        i += 1;
    }
    true
}

/// The units by which a text is matched, and whether they are its bytes.
fn split_units(haystack: &str) -> (r: (Vec<char>, bool))
    ensures
        r.0@ == units(haystack@),
        r.1 == is_bytewise(haystack@),
{
    if !haystack.is_ascii() {
        let parts = split_graphemes(haystack);
        if !all_ascii(&parts) {
            return (parts, false);
        }
    }
    let bytes = haystack.as_bytes();
    let mut parts: Vec<char> = Vec::new();
    let mut i: usize = 0;
    while i < bytes.len()
        invariant
            i <= bytes.len(),
            parts.len() == i,
            forall|j: int| 0 <= j < i ==> #[trigger] parts@[j] == bytes@[j] as char,
        decreases bytes.len() - i,
    {
        parts.push(bytes[i] as char);
        i += 1;
    }
    assert(parts@ =~= units(haystack@));
    (parts, true)
}

/// Whether accents do not matter where some characters are looked for.
fn ignores_accents(needle: &Vec<char>) -> (r: bool)
    ensures
        r == is_lenient(needle@),
{
    let mut i: usize = 0;
    while i < needle.len()
        invariant
            i <= needle.len(),
            forall|j: int| 0 <= j < i ==> plain(#[trigger] needle@[j]) == needle@[j],
        decreases needle.len() - i,
    {
        if strip(needle[i]) != needle[i] {
            return false;
        }
        i += 1;
    }
    true
}

/// What the units of a text count as.
fn read(parts: &Vec<char>, bytewise: bool, lenient: bool) -> (r: Vec<char>)
    ensures
        r@ == parts@.map_values(|unit: char| read_as(unit, bytewise, lenient)),
{
    let mut out: Vec<char> = Vec::new();
    let mut i: usize = 0;
    while i < parts.len()
        invariant
            i <= parts.len(),
            out.len() == i,
            forall|j: int| 0 <= j < i ==> #[trigger] out@[j] == read_as(parts@[j], bytewise, lenient),
        decreases parts.len() - i,
    {
        let unit = parts[i];
        if bytewise {
            if 'A' <= unit && unit <= 'Z' {
                out.push((unit as u8 + 32) as char);
            } else {
                out.push(unit);
            }
        } else if lenient {
            out.push(fold(strip(unit)));
        } else {
            out.push(fold(unit));
        }
        i += 1;
    }
    assert(out@ =~= parts@.map_values(|unit: char| read_as(unit, bytewise, lenient)));
    out
}

/// How many characters of `needle`, from the first, are found in `s` in their order.
fn count_found(needle: &Vec<char>, s: &Vec<char>) -> (r: usize)
    ensures
        r == found(needle@, s@),
        r <= needle@.len(),
{
    let mut count: usize = 0;
    let mut i: usize = 0;
    assert(s@.take(0) =~= seq![]);
    while i < s.len()
        invariant
            i <= s.len(),
            count <= needle.len(),
            count == found(needle@, s@.take(i as int)),
        decreases s.len() - i,
    {
        assert(s@.take(i + 1).drop_last() =~= s@.take(i as int));
        if count < needle.len() && s[i] == needle[count] {
            count += 1;
        }
        i += 1;
    }
    assert(s@.take(i as int) =~= s@);
    count
}

/// Whether `needle` stands in `s` from `i` on.
fn stands_at(needle: &Vec<char>, s: &Vec<char>, i: usize) -> (r: bool)
    requires
        i + needle@.len() <= s@.len(),
    ensures
        r == (s@.subrange(i as int, i + needle@.len()) == needle@),
{
    let mut k: usize = 0;
    while k < needle.len()
        invariant
            k <= needle.len(),
            i + needle.len() <= s.len(),
            forall|j: int| 0 <= j < k ==> s@[i + j] == #[trigger] needle@[j],
        decreases needle.len() - k,
    {
        if s[i + k] != needle[k] {
            assert(s@.subrange(i as int, i + needle@.len())[k as int] != needle@[k as int]);
            return false;
        }
        k += 1;
    }
    assert(s@.subrange(i as int, i + needle@.len()) =~= needle@);
    true
}

/// Whether `needle` stands in `s` as a whole.
fn stands_in(needle: &Vec<char>, s: &Vec<char>) -> (r: bool)
    ensures
        r == occurs(needle@, s@),
{
    if needle.len() > s.len() {
        return false;
    }
    let last: usize = s.len() - needle.len();
    let mut i: usize = 0;
    loop
        invariant
            i <= last,
            last == s@.len() - needle@.len(),
            forall|j: int|
                0 <= j < i ==> #[trigger] s@.subrange(j, j + needle@.len()) != needle@,
        decreases last - i,
    {
        if stands_at(needle, s, i) {
            return true;
        }
        if i == last {
            return false;
        }
        i += 1;
    }
}

/// The part of a text in which a match with gaps is looked for.
fn window(needle: &Vec<char>, read: &Vec<char>) -> (r: Option<(usize, usize)>)
    requires
        needle@.len() > 0,
    ensures
        r matches Some((start, end)) ==> is_window(needle@, read@, start as int, end as int),
        r is None ==> forall|start: int, end: int| !is_window(needle@, read@, start, end),
{
    if needle.len() > read.len() {
        return None;
    }
    let room: usize = read.len() - needle.len();
    let mut start: usize = 0;
    while start <= room && read[start] != needle[0]
        invariant
            needle@.len() > 0,
            room == read.len() - needle.len(),
            start <= room + 1 <= read.len(),
            forall|i: int| 0 <= i < start ==> #[trigger] read@[i] != needle@[0],
        decreases room + 1 - start,
    {
        start += 1;
    }
    if start > room {
        return None;
    }
    let last = needle[needle.len() - 1];
    let mut end: usize = read.len();
    while end > start + 1 && read[end - 1] != last
        invariant
            start < read@.len(),
            start + 1 <= end <= read@.len(),
            forall|i: int| end <= i < read@.len() ==> #[trigger] read@[i] != last,
        decreases end,
    {
        end -= 1;
    }
    if end > start + 1 {
        Some((start, end))
    } else {
        None
    }
}

/// Whether so many units of a text are compared with so many characters in a table.
fn uses_table(columns: usize, rows: usize) -> (r: bool)
    requires
        rows < columns,
    ensures
        r == has_table(columns as nat, rows as nat),
{
    if columns > 65_535 || rows > 2_048 {
        return false;
    }
    let columns: u64 = columns as u64;
    let rows: u64 = rows as u64;
    let cells: u64 = columns + 1 - rows;
    assert(columns * rows <= 65_535 * 2_048 && cells * rows <= 65_536 * 2_048) by (nonlinear_arith)
        requires
            columns <= 65_535,
            rows <= 2_048,
            cells <= 65_536,
            0 <= columns,
            0 <= rows,
            0 <= cells,
    ;
    let size: u64 = ((5 * columns + 1) / 2 * 2 + 2 * rows + 7) / 8 * 8 + 8 * cells + cells * rows;
    columns * rows <= 102_400 && size <= 133_120
}

/// Whether `c` is a variant.
fn varies(c: char) -> (r: bool)
    ensures
        r == is_variant(c),
{
    let n: u32 = c as u32;
    n == 0xb5 || n == 0x17f || n == 0x345 || n == 0x3c2 || n == 0x3d0 || n == 0x3d1 || n == 0x3d5 || n
        == 0x3d6 || n == 0x3f0 || n == 0x3f1 || n == 0x3f5 || (0x13f8 <= n && n <= 0x13fd) || (0x1c80
        <= n && n <= 0x1c88) || n == 0x1e9b || n == 0x1fbe || (0xab70 <= n && n <= 0xabbf)
}

/// Whether a match from `start` up to `end` starts behind `start`.
fn is_late(needle: &Vec<char>, parts: &Vec<char>, start: usize, end: usize) -> (r: bool)
    requires
        start < end <= parts@.len(),
    ensures
        r == starts_late(needle@, parts@, start as int, end as int),
{
    if end - start <= needle.len() || !varies(parts[start]) || !uses_table(end - start, needle.len()) {
        return false;
    }
    let mut entered: Vec<char> = Vec::new();
    let mut i: usize = start;
    while i < end
        invariant
            start <= i <= end <= parts@.len(),
            entered.len() == i - start,
            forall|j: int| 0 <= j < i - start ==> #[trigger] entered@[j] == entered_as(parts@[start + j]),
        decreases end - i,
    {
        if varies(parts[i]) {
            entered.push(parts[i]);
        } else {
            entered.push(fold(parts[i]));
        }
        i += 1;
    }
    assert(entered@ =~= parts@.subrange(start as int, end as int).map_values(
        |unit: char| entered_as(unit),
    ));
    count_found(needle, &entered) == needle.len()
}

/// Whether `haystack` can be scored against one word of a query, which looks for
/// the characters `needle`.
fn is_word_scorable(word: &str, needle: &Vec<char>, gaps: bool, haystack: &str) -> (r: bool)
    requires
        (needle@, gaps) == atom(word@),
        needle@.len() > 0,
    ensures
        r == word_scorable(word@, haystack@),
{
    let (parts, bytewise) = split_units(haystack);
    let count: u128 = parts.len() as u128;
    let wanted: u128 = needle.len() as u128;
    if count > u32::MAX as u128 {
        return false;
    }
    if wanted <= count {
        assert(wanted * count <= 0xffff_ffff * 0xffff_ffff) by (nonlinear_arith)
            requires
                0 <= wanted <= count <= 0xffff_ffff,
        ;
        if wanted * count > usize::MAX as u128 {
            return false;
        }
    }
    let lenient = ignores_accents(needle);
    if needle.len() <= LONGEST_MATCH && (lenient || bytewise) {
        return true;
    }
    let read = read(&parts, bytewise, lenient);
    assert(read@ == reading(needle@, haystack@));
    if needle.len() > LONGEST_MATCH && (!bytewise || word.is_ascii()) {
        let matching = if gaps {
            count_found(needle, &read) == needle.len()
        } else {
            stands_in(needle, &read)
        };
        if matching {
            return false;
        }
    }
    if !gaps || needle.len() == 1 || lenient || bytewise {
        return true;
    }
    match window(needle, &read) {
        Some((start, end)) => {
            proof {
                assert forall|s: int, e: int| #[trigger]
                    is_window(needle@, read@, s, e) implies s == start && e == end by {
                    lemma_one_window(needle@, read@, s, e, start as int, end as int);
                }
            }
            !is_late(needle, &parts, start, end)
        },
        None => true,
    }
}

/// There is one part of a text at most in which a match is looked for.
proof fn lemma_one_window(needle: Seq<char>, read: Seq<char>, s: int, e: int, start: int, end: int)
    requires
        needle.len() > 0,
        is_window(needle, read, s, e),
        is_window(needle, read, start, end),
    ensures
        s == start,
        e == end,
{
    if s < start {
        assert(read[s] != needle[0]);
    } else if start < s {
        assert(read[start] != needle[0]);
    }
    if e < end {
        assert(read[end - 1] != needle.last());
    } else if end < e {
        assert(read[e - 1] != needle.last());
    }
}

/// Whether `haystack` can be scored against `query`.
pub fn is_scorable(query: &str, haystack: &str) -> (r: bool)
    ensures
        r == scorable(query@, haystack@),
{
    let pieces = split_words(query);
    let ghost all = words(query@);
    assert(pieces.len() == all.len());
    let mut total: u64 = 0;
    let mut i: usize = 0;
    while i < pieces.len()
        invariant
            i <= pieces.len(),
            all == words(query@),
            text::contents(pieces@) == all,
            pieces.len() == all.len(),
            forall|j: int| 0 <= j < i ==> passes(#[trigger] all[j], haystack@),
            forall|j: int|
                0 <= j < i ==> word_scorable(#[trigger] all[j], haystack@) && points(
                    all,
                    haystack@,
                    (j + 1) as nat,
                ) <= u32::MAX,
            total == points(all, haystack@, i as nat),
            total <= u32::MAX,
        decreases pieces.len() - i,
    {
        let word = pieces[i].as_str();
        assert(all[i as int] == word@);
        let (needle, gaps) = parse_atom(word);
        if needle.len() > 0 {
            if !is_word_scorable(word, &needle, gaps, haystack) {
                return false;
            }
            match score_atom(word, haystack) {
                Some(score) => {
                    total = total + score as u64;
                    if total > u32::MAX as u64 {
                        assert(points(all, haystack@, (i + 1) as nat) > u32::MAX);
                        return false;
                    }
                },
                None => {
                    assert(points(all, haystack@, (i + 1) as nat) == total);
                    assert(!passes(all[i as int], haystack@));
                    return true;
                },
            }
        }
        i += 1;
    }
    true
}

/// A text of usual length can be scored against a query of words of usual length:
/// always where accents do not matter in the words or the text is ASCII, and
/// otherwise too unless there is a variant in the text.
pub proof fn law_usual_texts_can_be_scored(query: Seq<char>, haystack: Seq<char>)
    requires
        words(query).len() <= 65_537,
        units(haystack).len() <= 1_000_000,
        forall|i: int|
            0 <= i < words(query).len() ==> {
                let needle = atom(#[trigger] words(query)[i]).0;
                &&& needle.len() <= LONGEST_MATCH
                &&& is_lenient(needle) || is_bytewise(haystack) || forall|k: int|
                    0 <= k < units(haystack).len() ==> !is_variant(#[trigger] units(haystack)[k])
            },
    ensures
        scorable(query, haystack),
{
    let all = words(query);
    assert forall|i: int| 0 <= i < all.len() implies word_scorable(#[trigger] all[i], haystack) && points(
        all,
        haystack,
        (i + 1) as nat,
    ) <= u32::MAX by {
        let needle = atom(all[i]).0;
        let wanted = needle.len();
        let count = units(haystack).len();
        assert(wanted * count <= 2_520 * 1_000_000) by (nonlinear_arith)
            requires
                wanted <= 2_520,
                count <= 1_000_000,
        ;
        if clashes(all[i], haystack) {
            let (start, end) = choose|start: int, end: int| #[trigger]
                is_window(needle, reading(needle, haystack), start, end) && starts_late(
                    needle,
                    units(haystack),
                    start,
                    end,
                );
            assert(is_variant(units(haystack)[start]));
        }
        lemma_points_are_few(all, haystack, (i + 1) as nat);
    }
}

/// Variants are rare: there is none in ASCII, among the letters with an accent that
/// follow it, or among the signs of East Asia.
pub proof fn law_variants_are_rare(c: char)
    requires
        c as u32 <= 0xb4 || 0xb6 <= c as u32 <= 0x17e || 0x2000 <= c as u32 <= 0xab6f || 0xabc0 <= c as u32,
    ensures
        !is_variant(c),
{
}

proof fn lemma_points_are_few(words: Seq<Seq<char>>, haystack: Seq<char>, n: nat)
    ensures
        points(words, haystack, n) <= 65_535 * n,
    decreases n,
{
    if n > 0 {
        lemma_points_are_few(words, haystack, (n - 1) as nat);
    }
}

/// The text that words make with a space between one and the next.
pub open spec fn spaced(words: Seq<Seq<char>>) -> Seq<char>
    decreases words.len(),
{
    if words.len() == 0 {
        seq![]
    } else if words.len() == 1 {
        words[0]
    } else {
        spaced(words.drop_last()).push(' ') + words.last()
    }
}

/// The words of a query, with a space between one and the next, make up the query,
/// and a space within a word has a backslash before it.
pub proof fn law_words_make_up_the_query(query: Seq<char>)
    ensures
        words(query).len() > 0,
        spaced(words(query)) == query,
        forall|i: int, k: int|
            0 <= i < words(query).len() && 0 <= k < words(query)[i].len() && #[trigger] words(query)[i][k]
                == ' ' ==> k > 0 && words(query)[i][k - 1] == '\\',
    decreases query.len(),
{
    lemma_words_end_the_query(query);
    if query.len() == 0 {
        assert(words(query)[0] =~= seq![]);
        assert(spaced(words(query)) =~= query);
    } else {
        let shorter = query.drop_last();
        let before = words(shorter);
        let all = words(query);
        let last = query.last();
        law_words_make_up_the_query(shorter);
        lemma_words_end_the_query(shorter);
        assert(shorter.push(last) =~= query);
        if ends_in_separator(query) {
            assert(all.drop_last() =~= before);
            assert(spaced(all) =~= query);
            assert forall|i: int, k: int|
                0 <= i < all.len() && 0 <= k < all[i].len() && #[trigger] all[i][k] == ' ' implies k > 0
                && all[i][k - 1] == '\\' by {
                assert(before[i][k] == all[i][k]);
            }
        } else {
            let longer = before.last().push(last);
            assert(all.drop_last() =~= before.drop_last());
            assert(before[before.len() - 1] == before.last());
            assert forall|i: int, k: int|
                0 <= i < all.len() && 0 <= k < all[i].len() && #[trigger] all[i][k] == ' ' implies k > 0
                && all[i][k - 1] == '\\' by {
                if i < before.len() - 1 {
                    assert(before[i][k] == all[i][k]);
                } else if k < before.last().len() {
                    assert(before[i][k] == all[i][k]);
                    assert(before[i][k - 1] == all[i][k - 1]);
                } else {
                    assert(query.len() > 1 && query[query.len() - 2] == '\\');
                    assert(shorter.last() == '\\');
                    assert(before.last().len() > 0 && before.last().last() == '\\');
                }
            }
            if before.len() == 1 {
                assert(spaced(all) =~= query);
            } else {
                assert(spaced(all) == spaced(before.drop_last()).push(' ') + longer);
                assert(spaced(all) =~= spaced(before).push(last));
            }
        }
    }
}

/// Unless a query ends in a separating space, its last word ends as it does.
proof fn lemma_words_end_the_query(query: Seq<char>)
    ensures
        words(query).len() > 0,
        query.len() > 0 && !ends_in_separator(query) ==> words(query).last().len() > 0 && words(
            query,
        ).last().last() == query.last(),
    decreases query.len(),
{
    if query.len() > 0 {
        lemma_words_end_the_query(query.drop_last());
    }
}

/// An ASCII text is matched character by character.
pub proof fn law_ascii_is_matched_as_it_is(haystack: Seq<char>)
    requires
        vstd::utf8::is_ascii_chars(haystack),
    ensures
        is_bytewise(haystack),
        units(haystack) == haystack,
{
    vstd::utf8::is_ascii_chars_encode_utf8(haystack);
    assert forall|i: int| 0 <= i < haystack.len() implies units(haystack)[i] == haystack[i] by {
        assert('\0' <= haystack[i] <= '\u{7f}');
    }
    assert(units(haystack) =~= haystack);
}

} // verus!

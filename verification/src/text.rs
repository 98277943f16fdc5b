//! Text building: the few string operations the rest of the library rests on.

use vstd::prelude::*;

verus! {

/// `String::push` appends the given character to the end of the string.
pub assume_specification[ String::push ](s: &mut String, c: char)
    ensures
        final(s)@ == old(s)@.push(c),
;

/// `String::pop` removes the last character and hands it out, or hands out
/// `None` and changes nothing where the string is empty.
pub assume_specification[ String::pop ](s: &mut String) -> (r: Option<char>)
    ensures
        old(s)@.len() == 0 ==> r is None && final(s)@ == old(s)@,
        old(s)@.len() > 0 ==> r == Some(old(s)@.last()) && final(s)@ == old(s)@.drop_last(),
;

/// The decimal digit that stands for `d`, where `d < 10`.
pub open spec fn digit(d: nat) -> char {
    (('0' as nat) + d) as char
}

/// The decimal notation of `n`, without leading zeros.
pub open spec fn decimal(n: nat) -> Seq<char>
    decreases n,
{
    if n < 10 {
        seq![digit(n)]
    } else {
        decimal(n / 10).push(digit(n % 10))
    }
}

/// Appends the decimal notation of `n` to `out`.
pub fn push_decimal(out: &mut String, n: u64)
    ensures
        final(out)@ == old(out)@ + decimal(n as nat),
    decreases n,
{
    if n >= 10 {
        push_decimal(out, n / 10);
    }
    let d: u8 = (n % 10) as u8;
    out.push((48u8 + d) as char);
    assert(final(out)@ =~= old(out)@ + decimal(n as nat));
}

/// The contents of a list of texts.
pub open spec fn contents(texts: Seq<String>) -> Seq<Seq<char>> {
    texts.map_values(|text: String| text@)
}

/// What an absent text counts as: the empty text.
pub open spec fn text_or_empty(text: Option<String>) -> Seq<char> {
    match text {
        Some(s) => s@,
        None => seq![],
    }
}

/// The text, or the empty text where there is none.
pub fn or_empty(text: &Option<String>) -> (r: String)
    ensures
        r@ == text_or_empty(*text),
        *text matches Some(s) ==> r == s,
{
    match text {
        Some(s) => s.clone(),
        None => String::new(),
    }
}

/// A copy of an optional text.
pub fn copy_text(text: &Option<String>) -> (r: Option<String>)
    ensures
        r == *text,
{
    match text {
        Some(s) => Some(s.clone()),
        None => None,
    }
}

/// The number that decimal digits stand for.
pub open spec fn number(digits: Seq<char>) -> int
    decreases digits.len(),
{
    if digits.len() == 0 {
        0
    } else {
        10 * number(digits.drop_last()) + (digits.last() as int - '0' as int)
    }
}

/// Decimal notation reads back as the number it was made of, is made of digits,
/// and starts with a zero only where it is one.
pub proof fn law_decimal_reads_back(n: nat)
    ensures
        number(decimal(n)) == n,
        decimal(n).len() > 0,
        forall|i: int| 0 <= i < decimal(n).len() ==> '0' <= #[trigger] decimal(n)[i] <= '9',
        decimal(n)[0] == '0' ==> decimal(n).len() == 1,
    decreases n,
{
    if n < 10 {
        reveal_with_fuel(number, 2);
        assert(decimal(n).drop_last() =~= seq![]);
        assert(decimal(n)[0] == digit(n));
    } else {
        law_decimal_reads_back(n / 10);
        let before = decimal(n / 10);
        assert(decimal(n) =~= before.push(digit(n % 10)));
        assert(decimal(n).drop_last() =~= before);
        assert(decimal(n)[0] == before[0]);
        if before[0] == '0' {
            assert(before.drop_last() =~= seq![]);
            reveal_with_fuel(number, 2);
        }
        assert forall|i: int| 0 <= i < decimal(n).len() implies '0' <= #[trigger] decimal(n)[i] <= '9' by {
            if i < before.len() {
                assert(decimal(n)[i] == before[i]);
            }
        }
    }
}

/// A text that is there is taken as it is, and one that is absent as nothing.
pub proof fn law_text_is_taken_as_it_is(text: Option<String>)
    ensures
        text matches Some(s) ==> text_or_empty(text) == s@,
        text is None ==> text_or_empty(text).len() == 0,
{
}

/// Each text of a list has its contents at its place, and there is nothing else.
pub proof fn law_contents_stand_in_place(texts: Seq<String>)
    ensures
        contents(texts).len() == texts.len(),
        forall|i: int| 0 <= i < texts.len() ==> #[trigger] contents(texts)[i] == texts[i]@,
{
}

} // verus!

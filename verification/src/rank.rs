//! Ranking: positions by falling key, and by position where keys are equal.

use vstd::prelude::*;

verus! {

/// The keys as numbers.
pub open spec fn ints(keys: Seq<i128>) -> Seq<int> {
    keys.map_values(|key: i128| key as int)
}

/// Whether position `a` ranks before position `b`: by the greater key, and
/// among equal keys by the smaller position.
pub open spec fn ahead(keys: Seq<int>, a: int, b: int) -> bool {
    keys[a] > keys[b] || (keys[a] == keys[b] && a < b)
}

/// Whether `order` holds the positions from `lo` up to `hi`, each once, and
/// each ahead of those after it.
pub open spec fn is_ranking(keys: Seq<int>, lo: int, hi: int, order: Seq<usize>) -> bool {
    &&& order.len() == hi - lo
    &&& forall|i: int| 0 <= i < order.len() ==> lo <= #[trigger] order[i] < hi
    &&& forall|k: usize| lo <= k < hi ==> #[trigger] order.contains(k)
    &&& forall|i: int, j: int|
        0 <= i < j < order.len() ==> ahead(keys, #[trigger] order[i] as int, #[trigger] order[j] as int)
}

/// Merges the rankings of two stretches that meet at `mid`.
fn merge(keys: &Vec<i128>, lo: usize, mid: usize, hi: usize, left: Vec<usize>, right: Vec<usize>) -> (r: Vec<usize>)
    requires
        lo <= mid <= hi <= keys.len(),
        is_ranking(ints(keys@), lo as int, mid as int, left@),
        is_ranking(ints(keys@), mid as int, hi as int, right@),
    ensures
        is_ranking(ints(keys@), lo as int, hi as int, r@),
{
    let mut out: Vec<usize> = Vec::new();
    let mut i: usize = 0;
    let mut j: usize = 0;
    while i < left.len() || j < right.len()
        invariant
            lo <= mid <= hi <= keys.len(),
            is_ranking(ints(keys@), lo as int, mid as int, left@),
            is_ranking(ints(keys@), mid as int, hi as int, right@),
            i <= left.len(),
            j <= right.len(),
            out.len() == i + j,
            forall|p: int| 0 <= p < out.len() ==> lo <= #[trigger] out@[p] < hi,
            forall|p: int, q: int|
                0 <= p < q < out.len() ==> ahead(ints(keys@), #[trigger] out@[p] as int, #[trigger] out@[q] as int),
            forall|p: int, q: int|
                0 <= p < out.len() && i <= q < left.len() ==> ahead(
                    ints(keys@),
                    #[trigger] out@[p] as int,
                    #[trigger] left@[q] as int,
                ),
            forall|p: int, q: int|
                0 <= p < out.len() && j <= q < right.len() ==> ahead(
                    ints(keys@),
                    #[trigger] out@[p] as int,
                    #[trigger] right@[q] as int,
                ),
            forall|q: int| 0 <= q < i ==> out@.contains(#[trigger] left@[q]),
            forall|q: int| 0 <= q < j ==> out@.contains(#[trigger] right@[q]),
        decreases left.len() - i + right.len() - j,
    {
        let ghost before = out@;
        let take_left: bool = if i >= left.len() {
            false
        } else if j >= right.len() {
            true
        } else {
            keys[left[i]] >= keys[right[j]]
        };
        let next: usize = if take_left {
            left[i]
        } else {
            right[j]
        };
        out.push(next);
        if take_left {
            i += 1;
        } else {
            j += 1;
        }
        proof {
            assert(out@[before.len() as int] == next);
            assert(out@.contains(next));
            assert forall|k: usize| before.contains(k) implies out@.contains(k) by {
                let p = choose|p: int| 0 <= p < before.len() && before[p] == k;
                assert(out@[p] == k);
            }
        }
    }
    proof {
        assert forall|k: usize| lo <= k < hi implies #[trigger] out@.contains(k) by {
            if k < mid {
                assert(left@.contains(k));
            } else {
                assert(right@.contains(k));
            }
        }
    }
    out
}

/// Ranks the positions from `lo` up to `hi`.
fn rank_between(keys: &Vec<i128>, lo: usize, hi: usize) -> (r: Vec<usize>)
    requires
        lo <= hi <= keys.len(),
    ensures
        is_ranking(ints(keys@), lo as int, hi as int, r@),
    decreases hi - lo,
{
    let mut single: Vec<usize> = Vec::new();
    if hi - lo <= 1 {
        if lo < hi {
            single.push(lo);
            assert(single@[0] == lo);
        }
        return single;
    }
    let mid: usize = lo + (hi - lo) / 2;
    let left = rank_between(keys, lo, mid);
    let right = rank_between(keys, mid, hi);
    merge(keys, lo, mid, hi, left, right)
}

/// The positions of `keys`, ranked.
pub fn rank(keys: &Vec<i128>) -> (r: Vec<usize>)
    ensures
        is_ranking(ints(keys@), 0, keys@.len() as int, r@),
{
    rank_between(keys, 0, keys.len())
}

/// Keys have one ranking only.
pub proof fn law_one_ranking(keys: Seq<int>, first: Seq<usize>, second: Seq<usize>)
    requires
        is_ranking(keys, 0, keys.len() as int, first),
        is_ranking(keys, 0, keys.len() as int, second),
    ensures
        first == second,
{
    assert forall|i: int| 0 <= i < first.len() implies first[i] == second[i] by {
        lemma_agree_up_to(keys, first, second, i);
    }
    assert(first =~= second);
}

proof fn lemma_agree_up_to(keys: Seq<int>, first: Seq<usize>, second: Seq<usize>, i: int)
    requires
        is_ranking(keys, 0, keys.len() as int, first),
        is_ranking(keys, 0, keys.len() as int, second),
        0 <= i < first.len(),
    ensures
        forall|j: int| 0 <= j <= i ==> first[j] == second[j],
    decreases i,
{
    if i > 0 {
        lemma_agree_up_to(keys, first, second, i - 1);
    }
    assert(second.contains(first[i]));
    assert(first.contains(second[i]));
    let p = choose|p: int| 0 <= p < second.len() && second[p] == first[i];
    let q = choose|q: int| 0 <= q < first.len() && first[q] == second[i];
    if p < i {
        assert(first[p] == second[p]);
    }
    if q < i {
        assert(first[q] == second[q]);
    }
}

/// In a ranking every position stands once, the keys never rise, and of two
/// positions with one key the smaller stands first.
pub proof fn law_keys_never_rise(keys: Seq<int>, order: Seq<usize>, i: int, j: int)
    requires
        is_ranking(keys, 0, keys.len() as int, order),
        0 <= i < j < order.len(),
    ensures
        order.len() == keys.len(),
        order[i] < keys.len(),
        order[j] < keys.len(),
        order[i] != order[j],
        keys[order[i] as int] >= keys[order[j] as int],
        keys[order[i] as int] == keys[order[j] as int] ==> order[i] < order[j],
{
    assert(ahead(keys, order[i] as int, order[j] as int));
}

/// A key is ranked by its number.
pub proof fn law_keys_are_their_numbers(keys: Seq<i128>)
    ensures
        ints(keys).len() == keys.len(),
        forall|i: int| 0 <= i < keys.len() ==> #[trigger] ints(keys)[i] == keys[i],
{
}

} // verus!

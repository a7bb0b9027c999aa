use vstd::prelude::*;
use vstd::set_lib::{lemma_int_range, lemma_len_subset, set_int_range};
use crate::card::Card;

verus! {

pub open spec fn all_wf(s: Seq<Card>) -> bool {
    forall|i: int| 0 <= i < s.len() ==> (#[trigger] s[i]).wf()
}

/// Cards form a run when there are at least three and, sorted by order, each is one
/// above the one before: that is, their orders are distinct and no two of them lie
/// as many steps apart as there are cards.
pub open spec fn forms_run(s: Seq<Card>) -> bool {
    &&& s.len() >= 3
    &&& forall|i: int, j: int|
        0 <= i < s.len() && 0 <= j < s.len() && i != j ==> #[trigger] s[i].ord() != #[trigger] s[j].ord()
    &&& forall|i: int, j: int|
        0 <= i < s.len() && 0 <= j < s.len() ==> #[trigger] s[i].ord() - #[trigger] s[j].ord() < s.len()
}

/// Takes cards already sorted by order and tells whether they are a run.
pub fn is_run(cards: &[&Card]) -> (r: bool)
    requires
        forall|i: int| 0 <= i < cards@.len() ==> (#[trigger] cards@[i]).wf(),
    ensures
        r == (cards@.len() >= 3 && forall|i: int|
            1 <= i < cards@.len() ==> #[trigger] cards@[i].ord() == cards@[i - 1].ord() + 1),
{
    if cards.len() < 3 {
        return false;
    }
    let mut last = cards[0].order();
    let mut k: usize = 1;
    while k < cards.len()
        invariant
            1 <= k <= cards@.len(),
            cards@.len() >= 3,
            last == cards@[k - 1].ord(),
            forall|i: int| 0 <= i < cards@.len() ==> (#[trigger] cards@[i]).wf(),
            forall|i: int| 1 <= i < k ==> #[trigger] cards@[i].ord() == cards@[i - 1].ord() + 1,
        decreases cards@.len() - k,
    {
        let o = cards[k].order();
        if o != last + 1 {
            return false;
        }
        last = o;
        k += 1;
    }
    true
}

/// A run holds at most thirteen cards, since its orders are distinct values from 1 to 13.
pub proof fn lemma_run_len(s: Seq<Card>)
    requires
        forms_run(s),
        all_wf(s),
    ensures
        s.len() <= 13,
{
    let o = s.map_values(|c: Card| c.ord());
    assert forall|i: int, j: int| 0 <= i < o.len() && 0 <= j < o.len() && i != j implies o[i] != o[j] by {
        assert(s[i].ord() != s[j].ord());
    }
    assert(o.no_duplicates());
    o.unique_seq_to_set();
    assert forall|x: int| o.to_set().contains(x) implies set_int_range(1, 14).contains(x) by {
        let i = choose|i: int| 0 <= i < o.len() && o[i] == x;
        assert(s[i].wf());
    }
    lemma_int_range(1, 14);
    lemma_len_subset(o.to_set(), set_int_range(1, 14));
}

/// Tells whether the cards of `h` from index `start` on form a run.
pub fn window_is_run(h: &Vec<Card>, start: usize) -> (r: bool)
    requires
        start <= h@.len(),
        all_wf(h@),
    ensures
        r == forms_run(h@.skip(start as int)),
{
    let ghost w = h@.skip(start as int);
    let n = h.len() - start;
    if n < 3 {
        return false;
    }
    let mut i = start;
    while i < h.len()
        invariant
            start <= i <= h@.len(),
            n == h@.len() - start,
            n >= 3,
            w == h@.skip(start as int),
            all_wf(h@),
            forall|a: int, b: int|
                0 <= a < i - start && 0 <= b < n && a != b ==> #[trigger] w[a].ord() != #[trigger] w[b].ord(),
            forall|a: int, b: int|
                0 <= a < i - start && 0 <= b < n ==> #[trigger] w[a].ord() - #[trigger] w[b].ord() < n,
        decreases h@.len() - i,
    {
        let oi = h[i].order();
        let mut j = start;
        while j < h.len()
            invariant
                start <= i < h@.len(),
                start <= j <= h@.len(),
                n == h@.len() - start,
                w == h@.skip(start as int),
                oi == h@[i as int].ord(),
                all_wf(h@),
                forall|b: int|
                    0 <= b < j - start && b != i - start ==> #[trigger] w[b].ord() != w[i - start].ord(),
                forall|b: int| 0 <= b < j - start ==> w[i - start].ord() - #[trigger] w[b].ord() < n,
            decreases h@.len() - j,
        {
            let oj = h[j].order();
            if i != j && oi == oj {
                assert(w[i - start].ord() == w[j - start].ord());
                return false;
            }
            if oi > oj && (oi - oj) as usize >= n {
                assert(w[i - start].ord() - w[j - start].ord() >= n);
                return false;
            }
            j += 1;
        }
        assert forall|a: int, b: int|
            0 <= a < i + 1 - start && 0 <= b < n && a != b implies #[trigger] w[a].ord() != #[trigger] w[b].ord() by {
            if a == i - start {
                assert(w[b].ord() != w[i - start].ord());
            }
        }
        i += 1;
    }
    true
}

} // verus!

use vstd::prelude::*;
use crate::card::Card;
use crate::run::{all_wf, forms_run, lemma_run_len, window_is_run};

verus! {

/// The length of the longest run among the suffixes of `h` that drop `d` or more
/// leading cards; 0 when none of them is a run.
pub open spec fn longest_run_from(h: Seq<Card>, d: int) -> int
    decreases h.len() - d,
{
    if d < 0 || h.len() - d < 3 {
        0
    } else if forms_run(h.skip(d)) {
        h.len() - d
    } else {
        longest_run_from(h, d + 1)
    }
}

/// How many cards at the end of `h` in a row have rank `v`.
pub open spec fn tail_matching(h: Seq<Card>, v: char) -> nat
    decreases h.len(),
{
    if h.len() == 0 || h.last().value != v {
        0
    } else {
        1 + tail_matching(h.drop_last(), v)
    }
}

/// How many cards at the end of `h` in a row share the rank of the last one.
pub open spec fn matching(h: Seq<Card>) -> nat {
    if h.len() == 0 {
        0
    } else {
        tail_matching(h, h.last().value)
    }
}

/// Points for `m` matching ranks: 2 for a pair, 6 for three, 12 for four.
pub open spec fn match_points(m: nat) -> int {
    if m >= 2 {
        m * (m - 1)
    } else {
        0
    }
}

/// The sum of the face values of the cards in `h`.
pub open spec fn points_total(h: Seq<Card>) -> int
    decreases h.len(),
{
    if h.len() == 0 {
        0
    } else {
        points_total(h.drop_last()) + h.last().points()
    }
}

/// The score for the card that was played last onto the history `h`: the longest
/// run at its end, the matching ranks at its end, 2 for a total of 15 and 2 for 31.
pub open spec fn play_points(h: Seq<Card>) -> int {
    longest_run_from(h, 0) + match_points(matching(h)) + (if points_total(h) == 15 {
        2int
    } else {
        0
    }) + (if points_total(h) == 31 {
        2int
    } else {
        0
    })
}

proof fn lemma_longest_run_bound(h: Seq<Card>, d: int)
    requires
        all_wf(h),
    ensures
        0 <= longest_run_from(h, d) <= 13,
    decreases h.len() - d,
{
    if d < 0 || h.len() - d < 3 {
    } else if forms_run(h.skip(d)) {
        lemma_run_len(h.skip(d));
    } else {
        lemma_longest_run_bound(h, d + 1);
    }
}

/// The score for the last card played onto `play_history`.
pub fn score_play(play_history: &Vec<Card>) -> (r: u8)
    requires
        all_wf(play_history@),
        matching(play_history@) <= 4,
    ensures
        r == play_points(play_history@),
{
    let ghost h = play_history@;
    let n = play_history.len();

    // Longest run at the end.
    let mut run: u8 = 0;
    let mut d: usize = 0;
    let mut searching = true;
    proof {
        lemma_longest_run_bound(h, 0);
    }
    while searching && n - d >= 3
        invariant
            h == play_history@,
            n == h.len(),
            d <= n,
            all_wf(h),
            searching ==> longest_run_from(h, 0) == longest_run_from(h, d as int),
            !searching ==> run == longest_run_from(h, 0),
            0 <= longest_run_from(h, 0) <= 13,
        decreases n - d + (if searching { 1int } else { 0int }),
    {
        if window_is_run(play_history, d) {
            proof {
                lemma_run_len(h.skip(d as int));
            }
            run = (n - d) as u8;
            searching = false;
        } else {
            d += 1;
        }
    }
    if searching {
        run = 0;
    }
    // Matching ranks at the end.

    let mut m: u8 = 0;
    if n > 0 {
        let v = play_history[n - 1].value;
        let mut k: usize = n;
        proof {
            assert(h.take(n as int) =~= h);
        }
        while k > 0 && play_history[k - 1].value == v
            invariant
                h == play_history@,
                n == h.len(),
                n > 0,
                k <= n,
                v == h.last().value,
                tail_matching(h, v) == (n - k) + tail_matching(h.take(k as int), v),
                tail_matching(h, v) <= 4,
            decreases k,
        {
            proof {
                assert(h.take(k as int).drop_last() =~= h.take(k - 1));
            }
            k -= 1;
        }
        proof {
            if k > 0 {
                assert(h.take(k as int).last() == h[k - 1]);
            }
            assert(tail_matching(h.take(k as int), v) == 0);
        }
        m = (n - k) as u8;
    }
    assert(m == matching(h));
    let pairs: u8 = if m >= 2 {
        assert(m * (m - 1) <= 12) by (nonlinear_arith)
            requires
                2 <= m <= 4,
        ;
        m * (m - 1)
    } else {
        0
    };

    // Total of the face values, held at 32 once past 31.
    let mut sum: u8 = 0;
    let mut i: usize = 0;
    while i < n
        invariant
            h == play_history@,
            n == h.len(),
            i <= n,
            all_wf(h),
            points_total(h.take(i as int)) >= 0,
            sum == if points_total(h.take(i as int)) > 31 {
                32
            } else {
                points_total(h.take(i as int))
            },
        decreases n - i,
    {
        proof {
            assert(h.take(i + 1).drop_last() =~= h.take(i as int));
            assert(h[i as int].wf());
        }
        let v = play_history[i].score_value();
        sum = if sum + v > 31 {
            32
        } else {
            sum + v
        };
        i += 1;
    }
    proof {
        assert(h.take(n as int) =~= h);
    }
    let mut score: u8 = run + pairs;
    if sum == 15 {
        score += 2;
    }
    if sum == 31 {
        score += 2;
    }
    score
}

} // verus!

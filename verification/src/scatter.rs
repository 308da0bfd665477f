//! Random mine placement: the nominal mine count for a density tier, a
//! trusted draw from the random number generator, and deduplication of
//! repeated draws.

use vstd::prelude::*;

use itertools::Itertools;
use rand::Rng;

use crate::cell::{density_ratio, Density};

verus! {

/// The number of mines a board nominally receives: the density tier's
/// percentage of the cell count, rounded up. Repeated draws may place
/// fewer mines than this, never more.
pub open spec fn nominal_mines(w: int, h: int, d: Density) -> int {
    (w * h * density_ratio(d) + 99) / 100
}

/// The nominal mine count computed at run time: what the scatter draws
/// before deduplication, and the ceiling the placed count never exceeds.
pub fn nominal_mine_count(w: usize, h: usize, density: &Density) -> (r: usize)
    requires
        w as int * h as int * 20 + 99 <= usize::MAX,
    ensures
        r as int == nominal_mines(w as int, h as int, *density),
{
    let ratio: usize = match density {
        Density::Low => 5,
        Density::Middle => 10,
        Density::High => 20,
    };
    proof {
        assert(w as int * h as int <= w as int * h as int * 20) by (nonlinear_arith)
            requires w as int * h as int >= 0;
        assert((w as int * h as int) * (ratio as int) <= w as int * h as int * 20)
            by (nonlinear_arith)
            requires w as int * h as int >= 0, 0 <= ratio as int <= 20;
    }
    (w * h * ratio + 99) / 100
}

/// Relies on rand's `thread_rng` and `Rng::gen_range` over `0..bound`:
/// the draw needs a non-empty range and returns a value inside it.
/// Nothing more can be said of a random draw.
#[verifier::external_body]
pub(crate) fn draw_index(bound: usize) -> (r: usize)
    requires
        1 <= bound,
    ensures
        r < bound,
{
    rand::thread_rng().gen_range(0..bound)
}

/// The input with every repetition of an earlier element removed: the
/// first occurrence of each element is kept, in input order.
pub open spec fn dedup_firsts(s: Seq<(usize, usize)>) -> Seq<(usize, usize)>
    decreases s.len(),
{
    if s.len() == 0 {
        Seq::empty()
    } else if s.drop_last().contains(s.last()) {
        dedup_firsts(s.drop_last())
    } else {
        dedup_firsts(s.drop_last()).push(s.last())
    }
}

/// Relies on itertools' `unique`: it filters out elements that were
/// already produced, keeping the first occurrence of each, in input order.
#[verifier::external_body]
pub(crate) fn unique_pairs(v: Vec<(usize, usize)>) -> (r: Vec<(usize, usize)>)
    ensures
        r@ == dedup_firsts(v@),
{
    v.into_iter().unique().collect_vec()
}

/// Deduplication keeps between one element and all of them, keeps exactly
/// the elements of the input, and leaves no two equal elements behind.
pub proof fn lemma_dedup_firsts(s: Seq<(usize, usize)>)
    ensures
        dedup_firsts(s).len() <= s.len(),
        s.len() > 0 ==> dedup_firsts(s).len() >= 1,
        forall|p: (usize, usize)| #[trigger] dedup_firsts(s).contains(p) <==> s.contains(p),
        forall|i: int, j: int|
            0 <= i < j < dedup_firsts(s).len() ==> dedup_firsts(s)[i] != dedup_firsts(s)[j],
    decreases s.len(),
{
    if s.len() > 0 {
        let prefix = s.drop_last();
        let last = s.last();
        lemma_dedup_firsts(prefix);
        assert forall|p: (usize, usize)| #[trigger] s.contains(p) implies prefix.contains(p) || p
            == last by {
            let i = choose|i: int| 0 <= i < s.len() && s[i] == p;
            if i < s.len() - 1 {
                assert(prefix[i] == p);
            }
        }
        assert(forall|p: (usize, usize)|
            #[trigger] prefix.contains(p) ==> s.contains(p)) by {
            assert(forall|i: int| 0 <= i < prefix.len() ==> #[trigger] prefix[i] == s[i]);
        }
        assert(s.contains(last));
        if !prefix.contains(last) {
            let d = dedup_firsts(s);
            let dp = dedup_firsts(prefix);
            assert forall|p: (usize, usize)| #[trigger] d.contains(p) implies s.contains(p) by {
                let i = choose|i: int| 0 <= i < d.len() && d[i] == p;
                if i < d.len() - 1 {
                    assert(dp[i] == p);
                    assert(dp.contains(p));
                }
            }
            assert forall|p: (usize, usize)| #[trigger] s.contains(p) implies d.contains(p) by {
                if p == last {
                    assert(d[d.len() - 1] == p);
                } else {
                    assert(prefix.contains(p));
                    assert(dp.contains(p));
                    let i = choose|i: int| 0 <= i < dp.len() && dp[i] == p;
                    assert(d[i] == p);
                }
            }
            assert forall|i: int, j: int| 0 <= i < j < d.len() implies d[i] != d[j] by {
                if j == d.len() - 1 {
                    assert(d[i] == dp[i]);
                    assert(dp.contains(dp[i]));
                    assert(prefix.contains(dp[i]));
                }
            }
        }
    }
}

} // verus!

//! The first least-scored pair of a scan over all pairs `i < j`.
//!
//! Both the earliest collision and the deepest overlap are such a pair: the
//! one with the least score, and among equals the first in the order of the
//! scan, which goes by `i` and then by `j`.

use vstd::prelude::*;

verus! {

/// The pair `(k, l)` comes before `(i, j)` in the order of the scan.
pub open spec fn before(k: int, l: int, i: int, j: int) -> bool {
    k < i || (k == i && l < j)
}

/// `best` is the score and the places of the first least-scored pair among
/// the pairs `k < l < n` that come before `(bi, bj)`; `None` when none of them
/// has a score.
pub open spec fn is_first_least(
    score: spec_fn(int, int) -> Option<int>,
    n: int,
    best: Option<(int, int, int)>,
    bi: int,
    bj: int,
) -> bool {
    match best {
        None => forall|k: int, l: int|
            0 <= k < l < n && before(k, l, bi, bj) ==> (#[trigger] score(k, l)) is None,
        Some((v, i, j)) => {
            &&& 0 <= i < j < n
            &&& before(i, j, bi, bj)
            &&& score(i, j) == Some(v)
            &&& forall|k: int, l: int|
                0 <= k < l < n && before(k, l, bi, bj) ==> ((#[trigger] score(k, l)) matches Some(
                    u,
                ) ==> v < u || (v == u && !before(k, l, i, j)))
        },
    }
}

/// The score and the places of the first least-scored pair among all pairs
/// `k < l < n`.
pub open spec fn first_least(score: spec_fn(int, int) -> Option<int>, n: int) -> Option<
    (int, int, int),
> {
    choose|best: Option<(int, int, int)>| is_first_least(score, n, best, n, 0)
}

/// The best pair once the pair `(i, j)`, of score `s`, has been seen too.
pub open spec fn with_pair(best: Option<(int, int, int)>, s: Option<int>, i: int, j: int)
    -> Option<(int, int, int)> {
    match s {
        Some(v) => match best {
            Some((u, _, _)) => if v < u {
                Some((v, i, j))
            } else {
                best
            },
            None => Some((v, i, j)),
        },
        None => best,
    }
}

/// Seeing one more pair keeps the best pair the first least-scored one.
pub proof fn lemma_scan_step(
    score: spec_fn(int, int) -> Option<int>,
    n: int,
    best: Option<(int, int, int)>,
    i: int,
    j: int,
)
    requires
        0 <= i < j < n,
        is_first_least(score, n, best, i, j),
    ensures
        is_first_least(score, n, with_pair(best, score(i, j), i, j), i, j + 1),
{
    let next = with_pair(best, score(i, j), i, j);
    match next {
        None => {
            assert forall|k: int, l: int| 0 <= k < l < n && before(k, l, i, j + 1) implies (
            #[trigger] score(k, l)) is None by {
                if before(k, l, i, j) {
                } else {
                    assert(k == i && l == j);
                }
            }
        },
        Some((v, bi, bj)) => {
            assert forall|k: int, l: int| 0 <= k < l < n && before(k, l, i, j + 1) implies ((
            #[trigger] score(k, l)) matches Some(u) ==> v < u || (v == u && !before(
                k,
                l,
                bi,
                bj,
            ))) by {
                if before(k, l, i, j) {
                } else {
                    assert(k == i && l == j);
                }
            }
        },
    }
}

/// Going on to the next row of the scan changes nothing.
pub proof fn lemma_scan_row(
    score: spec_fn(int, int) -> Option<int>,
    n: int,
    best: Option<(int, int, int)>,
    i: int,
)
    requires
        0 <= i,
        is_first_least(score, n, best, i, n) || is_first_least(score, n, best, i + 1, i + 2)
            || is_first_least(score, n, best, i + 1, 0),
    ensures
        is_first_least(score, n, best, i, n),
        is_first_least(score, n, best, i + 1, i + 2),
        is_first_least(score, n, best, i + 1, 0),
{
    assert forall|k: int, l: int| 0 <= k < l < n implies (before(k, l, i, n) <==> before(
        k,
        l,
        i + 1,
        i + 2,
    )) && (before(k, l, i, n) <==> before(k, l, i + 1, 0)) by {}
}

/// A scan over no rows has seen no pair.
pub proof fn lemma_scan_start(score: spec_fn(int, int) -> Option<int>, n: int)
    ensures
        is_first_least(score, n, None, 0, 0),
        is_first_least(score, n, None, 0, 1),
{
}

/// Every scan has a first least-scored pair, or none with a score.
pub proof fn lemma_first_least_exists(
    score: spec_fn(int, int) -> Option<int>,
    n: int,
    bi: int,
    bj: int,
) -> (best: Option<(int, int, int)>)
    requires
        0 <= bi,
        bi < bj <= n || bj == 0,
    ensures
        is_first_least(score, n, best, bi, bj),
    decreases bi, bj,
{
    if bj > bi + 1 {
        let prev = lemma_first_least_exists(score, n, bi, bj - 1);
        lemma_scan_step(score, n, prev, bi, bj - 1);
        with_pair(prev, score(bi, bj - 1), bi, bj - 1)
    } else if bi == 0 {
        lemma_scan_start(score, n);
        None
    } else if bi <= n {
        let prev = lemma_first_least_exists(score, n, bi - 1, n);
        lemma_scan_row(score, n, prev, bi - 1);
        if bj == 0 {
            prev
        } else {
            assert forall|k: int, l: int| 0 <= k < l < n implies (before(k, l, bi, bj)
                <==> before(k, l, bi, 0)) by {}
            prev
        }
    } else {
        let prev = lemma_first_least_exists(score, n, bi - 1, 0);
        assert forall|k: int, l: int| 0 <= k < l < n implies (before(k, l, bi, bj) <==> before(
            k,
            l,
            bi - 1,
            0,
        )) by {}
        prev
    }
}

/// The first least-scored pair is unique, and `first_least` names it.
pub proof fn lemma_first_least_unique(
    score: spec_fn(int, int) -> Option<int>,
    n: int,
    best: Option<(int, int, int)>,
)
    requires
        is_first_least(score, n, best, n, 0),
    ensures
        first_least(score, n) == best,
{
    let c = first_least(score, n);
    assert(is_first_least(score, n, c, n, 0));
    match (best, c) {
        (None, None) => {},
        (None, Some((v, i, j))) => {
            assert(score(i, j) is None);
        },
        (Some((v, i, j)), None) => {
            assert(score(i, j) is None);
        },
        (Some((v, i, j)), Some((u, k, l))) => {
            assert(score(i, j) == Some(v));
            assert(score(k, l) == Some(u));
        },
    }
}

/// What `first_least` names is the first least-scored pair.
pub proof fn lemma_first_least(score: spec_fn(int, int) -> Option<int>, n: int)
    requires
        0 <= n,
    ensures
        is_first_least(score, n, first_least(score, n), n, 0),
{
    let best = lemma_first_least_exists(score, n, n, 0);
}

} // verus!

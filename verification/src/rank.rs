//! Orders a store's passages by descending relatedness score.
//!
//! Scores are order-preserving integer keys for the similarity values that a
//! caller computed, one per passage position. The ranking is the unique
//! permutation of positions that lists higher scores first and breaks ties
//! by the original position, so a fixed input always ranks the same way.

use vstd::prelude::*;

use crate::bytes::copy_bytes;

verus! {

/// Strict priority between two positions of a score list: the higher score
/// comes first, and of two equal scores the earlier position comes first.
pub open spec fn ranks_before(scores: Seq<u64>, a: int, b: int) -> bool {
    scores[a] > scores[b] || (scores[a] == scores[b] && a < b)
}

/// A position list is ranked when every earlier entry has priority over
/// every later one.
pub open spec fn is_ranked(scores: Seq<u64>, p: Seq<usize>) -> bool {
    forall|i: int, j: int|
        0 <= i < j < p.len() ==> #[trigger] ranks_before(scores, p[i] as int, p[j] as int)
}

/// Position `x` inserted in front of the first entry it has priority over.
pub open spec fn insert_ranked_spec(scores: Seq<u64>, x: usize, p: Seq<usize>) -> Seq<usize>
    decreases p.len(),
{
    if p.len() == 0 {
        seq![x]
    } else if ranks_before(scores, x as int, p[0] as int) {
        seq![x] + p
    } else {
        seq![p[0]] + insert_ranked_spec(scores, x, p.skip(1))
    }
}

/// The ranking of the positions `0 .. n`, built by repeated insertion.
pub open spec fn rank_spec_upto(scores: Seq<u64>, n: nat) -> Seq<usize>
    decreases n,
{
    if n == 0 {
        Seq::empty()
    } else {
        insert_ranked_spec(scores, (n - 1) as usize, rank_spec_upto(scores, (n - 1) as nat))
    }
}

/// The ranking of all positions of `scores`.
pub open spec fn rank_spec(scores: Seq<u64>) -> Seq<usize> {
    rank_spec_upto(scores, scores.len())
}

proof fn lemma_insert_ranked_props(scores: Seq<u64>, x: usize, p: Seq<usize>)
    requires
        forall|k: int| 0 <= k < p.len() ==> #[trigger] p[k] != x,
        is_ranked(scores, p),
    ensures
        insert_ranked_spec(scores, x, p).len() == p.len() + 1,
        forall|y: usize|
            #[trigger] insert_ranked_spec(scores, x, p).contains(y) <==> (y == x || p.contains(y)),
        is_ranked(scores, insert_ranked_spec(scores, x, p)),
    decreases p.len(),
{
    let r = insert_ranked_spec(scores, x, p);
    if p.len() == 0 {
        assert forall|y: usize| #[trigger] r.contains(y) implies (y == x || p.contains(y)) by {
            assert(r[0] == x);
        }
        assert(r.contains(x)) by {
            assert(r[0] == x);
        }
    } else if ranks_before(scores, x as int, p[0] as int) {
        assert(r == seq![x] + p);
        assert forall|y: usize| #[trigger] r.contains(y) implies (y == x || p.contains(y)) by {
            let k = choose|k: int| 0 <= k < r.len() && r[k] == y;
            if k > 0 {
                assert(p[k - 1] == y);
            }
        }
        assert forall|y: usize| (y == x || p.contains(y)) implies #[trigger] r.contains(y) by {
            if y == x {
                assert(r[0] == y);
            } else {
                let k = choose|k: int| 0 <= k < p.len() && p[k] == y;
                assert(r[k + 1] == y);
            }
        }
        assert forall|i: int, j: int| 0 <= i < j < r.len() implies #[trigger] ranks_before(
            scores,
            r[i] as int,
            r[j] as int,
        ) by {
            if i == 0 {
                // x has priority over p[0], and p[0] over every later entry;
                // priority is transitive position by position.
                if j > 1 {
                    assert(ranks_before(scores, p[0] as int, p[j - 1] as int));
                }
            } else {
                assert(ranks_before(scores, p[i - 1] as int, p[j - 1] as int));
            }
        }
    } else {
        let rest = insert_ranked_spec(scores, x, p.skip(1));
        assert forall|k: int| 0 <= k < p.skip(1).len() implies #[trigger] p.skip(1)[k] != x by {
            assert(p.skip(1)[k] == p[k + 1]);
        }
        assert forall|i: int, j: int| 0 <= i < j < p.skip(1).len() implies #[trigger] ranks_before(
            scores,
            p.skip(1)[i] as int,
            p.skip(1)[j] as int,
        ) by {
            assert(ranks_before(scores, p[i + 1] as int, p[j + 1] as int));
        }
        lemma_insert_ranked_props(scores, x, p.skip(1));
        assert(r == seq![p[0]] + rest);
        assert forall|y: usize| #[trigger] r.contains(y) implies (y == x || p.contains(y)) by {
            let k = choose|k: int| 0 <= k < r.len() && r[k] == y;
            if k == 0 {
                assert(p[0] == y);
            } else {
                assert(rest[k - 1] == y);
                assert(rest.contains(y));
                if y != x {
                    let m = choose|m: int| 0 <= m < p.skip(1).len() && p.skip(1)[m] == y;
                    assert(p[m + 1] == y);
                }
            }
        }
        assert forall|y: usize| (y == x || p.contains(y)) implies #[trigger] r.contains(y) by {
            if y == x {
                assert(rest.contains(y));
                let k = choose|k: int| 0 <= k < rest.len() && rest[k] == y;
                assert(r[k + 1] == y);
            } else {
                let k = choose|k: int| 0 <= k < p.len() && p[k] == y;
                if k == 0 {
                    assert(r[0] == y);
                } else {
                    assert(p.skip(1)[k - 1] == y);
                    assert(p.skip(1).contains(y));
                    assert(rest.contains(y));
                    let m = choose|m: int| 0 <= m < rest.len() && rest[m] == y;
                    assert(r[m + 1] == y);
                }
            }
        }
        // x does not have priority over p[0], and the two positions differ,
        // so p[0] has priority over x and over everything x precedes.
        assert(ranks_before(scores, p[0] as int, x as int));
        assert forall|i: int, j: int| 0 <= i < j < r.len() implies #[trigger] ranks_before(
            scores,
            r[i] as int,
            r[j] as int,
        ) by {
            if i == 0 {
                assert(rest.contains(rest[j - 1]));
                let y = rest[j - 1];
                if y == x {
                } else {
                    assert(p.skip(1).contains(y));
                    let m = choose|m: int| 0 <= m < p.skip(1).len() && p.skip(1)[m] == y;
                    assert(p[m + 1] == y);
                    assert(ranks_before(scores, p[0] as int, p[m + 1] as int));
                }
            } else {
                assert(ranks_before(scores, rest[i - 1] as int, rest[j - 1] as int));
            }
        }
    }
}

/// The ranking of `0 .. n` holds exactly those positions, in ranked order.
pub proof fn lemma_rank_upto_props(scores: Seq<u64>, n: nat)
    requires
        n <= usize::MAX,
    ensures
        rank_spec_upto(scores, n).len() == n,
        forall|y: usize| #[trigger] rank_spec_upto(scores, n).contains(y) <==> (y as nat) < n,
        is_ranked(scores, rank_spec_upto(scores, n)),
    decreases n,
{
    if n == 0 {
    } else {
        lemma_rank_upto_props(scores, (n - 1) as nat);
        let prev = rank_spec_upto(scores, (n - 1) as nat);
        let x = (n - 1) as usize;
        assert forall|k: int| 0 <= k < prev.len() implies #[trigger] prev[k] != x by {
            assert(prev.contains(prev[k]));
        }
        lemma_insert_ranked_props(scores, x, prev);
        assert(rank_spec_upto(scores, n).contains(x));
    }
}

fn push_tail(dst: &mut Vec<usize>, p: &Vec<usize>, i: usize)
    requires
        i <= p@.len(),
    ensures
        final(dst)@ == old(dst)@ + p@.skip(i as int),
{
    let mut k: usize = i;
    while k < p.len()
        invariant
            i <= k <= p@.len(),
            dst@ == old(dst)@ + p@.subrange(i as int, k as int),
        decreases p@.len() - k,
    {
        dst.push(p[k]);
        proof {
            assert(dst@ =~= old(dst)@ + p@.subrange(i as int, k + 1));
        }
        k = k + 1;
    }
    proof {
        assert(dst@ =~= old(dst)@ + p@.skip(i as int));
    }
}

fn insert_ranked_from(scores: &Vec<u64>, x: usize, p: &Vec<usize>, i: usize) -> (r: Vec<usize>)
    requires
        i <= p@.len(),
        (x as int) < scores@.len(),
        forall|k: int| 0 <= k < p@.len() ==> (#[trigger] p@[k] as int) < scores@.len(),
    ensures
        r@ == insert_ranked_spec(scores@, x, p@.skip(i as int)),
    decreases p@.len() - i,
{
    if i == p.len() {
        let mut r: Vec<usize> = Vec::new();
        r.push(x);
        proof {
            assert(r@ =~= seq![x]);
        }
        r
    } else {
        let px = p[i];
        let before = scores[x] > scores[px] || (scores[x] == scores[px] && x < px);
        if before {
            let mut r: Vec<usize> = Vec::new();
            r.push(x);
            push_tail(&mut r, p, i);
            proof {
                assert(p@.skip(i as int)[0] == p@[i as int]);
                assert(r@ =~= seq![x] + p@.skip(i as int));
            }
            r
        } else {
            let mut r: Vec<usize> = Vec::new();
            r.push(px);
            let rest = insert_ranked_from(scores, x, p, i + 1);
            push_tail_vec(&mut r, &rest);
            proof {
                assert(p@.skip(i as int)[0] == p@[i as int]);
                assert(p@.skip(i as int).skip(1) =~= p@.skip(i + 1));
                assert(r@ =~= seq![p@[i as int]] + insert_ranked_spec(
                    scores@,
                    x,
                    p@.skip(i as int).skip(1),
                ));
            }
            r
        }
    }
}

fn push_tail_vec(dst: &mut Vec<usize>, src: &Vec<usize>)
    ensures
        final(dst)@ == old(dst)@ + src@,
{
    push_tail(dst, src, 0);
    proof {
        assert(old(dst)@ + src@.skip(0) =~= old(dst)@ + src@);
    }
}

/// Ranks the positions `0 .. scores.len()` by descending score, ties broken
/// by the original position: the output is the one permutation of positions
/// in which every earlier entry has priority over every later one.
pub fn rank_indices(scores: &Vec<u64>) -> (r: Vec<usize>)
    ensures
        r@ == rank_spec(scores@),
        r@.len() == scores@.len(),
        forall|k: int| 0 <= k < r@.len() ==> (#[trigger] r@[k] as int) < scores@.len(),
        forall|y: usize| #[trigger] r@.contains(y) <==> (y as int) < scores@.len(),
        is_ranked(scores@, r@),
{
    let mut r: Vec<usize> = Vec::new();
    let mut n: usize = 0;
    proof {
        lemma_rank_upto_props(scores@, 0);
        assert(r@ =~= rank_spec_upto(scores@, 0));
    }
    while n < scores.len()
        invariant
            n <= scores@.len(),
            r@ == rank_spec_upto(scores@, n as nat),
            forall|k: int| 0 <= k < r@.len() ==> (#[trigger] r@[k] as int) < scores@.len(),
        decreases scores@.len() - n,
    {
        proof {
            lemma_rank_upto_props(scores@, n as nat);
            lemma_rank_upto_props(scores@, (n + 1) as nat);
        }
        let next = insert_ranked_from(scores, n, &r, 0);
        proof {
            assert(r@.skip(0) =~= r@);
        }
        r = next;
        n = n + 1;
        proof {
            assert forall|k: int| 0 <= k < r@.len() implies (#[trigger] r@[k] as int)
                < scores@.len() by {
                assert(r@.contains(r@[k]));
            }
        }
    }
    proof {
        lemma_rank_upto_props(scores@, scores@.len());
    }
    r
}

/// The ranked output is a permutation of exactly the store's positions: it
/// has one entry per score, holds every position below the score count, and
/// repeats none.
pub proof fn lemma_rank_permutation(scores: Seq<u64>)
    requires
        scores.len() <= usize::MAX,
    ensures
        rank_spec(scores).len() == scores.len(),
        forall|y: usize| #[trigger] rank_spec(scores).contains(y) <==> (y as int) < scores.len(),
        rank_spec(scores).no_duplicates(),
{
    lemma_rank_upto_props(scores, scores.len());
    let r = rank_spec(scores);
    assert forall|i: int, j: int| 0 <= i < r.len() && 0 <= j < r.len() && i != j implies r[i]
        != r[j] by {
        if i < j {
            assert(ranks_before(scores, r[i] as int, r[j] as int));
        } else {
            assert(ranks_before(scores, r[j] as int, r[i] as int));
        }
    }
}

/// Ranking is monotonic: of two output slots whose scores differ, the slot
/// with the strictly greater score comes first.
pub proof fn lemma_rank_monotone(scores: Seq<u64>, a: int, b: int)
    requires
        scores.len() <= usize::MAX,
        0 <= a < rank_spec(scores).len(),
        0 <= b < rank_spec(scores).len(),
        scores[rank_spec(scores)[a] as int] > scores[rank_spec(scores)[b] as int],
    ensures
        a < b,
{
    lemma_rank_upto_props(scores, scores.len());
    if a == b {
    } else if b < a {
        assert(ranks_before(scores, rank_spec(scores)[b] as int, rank_spec(scores)[a] as int));
    }
}

/// The store's passages reordered by a ranking: entry `k` of the output is
/// the passage at position `order[k]`.
pub fn select_texts(texts: &Vec<Vec<u8>>, order: &Vec<usize>) -> (r: Vec<Vec<u8>>)
    requires
        forall|k: int| 0 <= k < order@.len() ==> (#[trigger] order@[k] as int) < texts@.len(),
    ensures
        r@.len() == order@.len(),
        forall|k: int| 0 <= k < r@.len() ==> #[trigger] r@[k]@ == texts@[order@[k] as int]@,
{
    let mut r: Vec<Vec<u8>> = Vec::new();
    let mut i: usize = 0;
    while i < order.len()
        invariant
            i <= order@.len(),
            r@.len() == i,
            forall|k: int| 0 <= k < order@.len() ==> (#[trigger] order@[k] as int) < texts@.len(),
            forall|k: int| 0 <= k < i ==> #[trigger] r@[k]@ == texts@[order@[k] as int]@,
        decreases order@.len() - i,
    {
        r.push(copy_bytes(&texts[order[i]]));
        i = i + 1;
    }
    r
}

} // verus!

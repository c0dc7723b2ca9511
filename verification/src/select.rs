//! Top-k selection over scored positions.
//!
//! The candidates are positions of a score vector. They are ranked by the
//! total-order key of their score, highest first; positions with the same
//! score keep their order in the vector.

use crate::score::{above_half, exceeds_half, key_of, total_order_key};
use itertools::Itertools;
use vstd::prelude::*;

verus! {

/// The order of pairs: by the first component, then by the second.
spec fn pair_le(a: (i32, usize), b: (i32, usize)) -> bool {
    a.0 < b.0 || (a.0 == b.0 && a.1 <= b.1)
}

/// `out` holds the `k` smallest of `items`, or all of them where there are
/// fewer, smallest first.
spec fn is_k_smallest(
    items: Seq<(i32, usize)>,
    k: nat,
    out: Seq<(i32, usize)>,
) -> bool {
    &&& out.len() == if k < items.len() {
        k
    } else {
        items.len()
    }
    &&& forall|i: int, j: int|
        0 <= i < j < out.len() ==> pair_le(#[trigger] out[i], #[trigger] out[j])
    &&& out.to_multiset().subset_of(items.to_multiset())
    &&& forall|x: (i32, usize), i: int|
        0 <= i < out.len() && #[trigger] items.to_multiset().count(x) > out.to_multiset().count(x)
            ==> pair_le(#[trigger] out[i], x)
}

/// `Itertools::k_smallest` on a vector of pairs, collected into a vector.
///
/// The contract restates its documentation for pairs of integers: the result
/// is what sorting the items and taking the first `k` gives. It has as many
/// items as the input or `k`, whichever is less; they are in ascending order;
/// each is one of the input's items, no more often than it occurs there; and
/// no item that was left out is smaller than one that was taken.
#[verifier::external_body]
fn k_smallest(items: Vec<(i32, usize)>, k: usize) -> (out: Vec<(i32, usize)>)
    ensures
        is_k_smallest(items@, k as nat, out@),
{
    items.into_iter().k_smallest(k).collect()
}

/// Whether position `i` of `scores` is a candidate: every position is one,
/// unless the selection is thresholded, where only scores above one half are.
pub open spec fn is_candidate(scores: Seq<u32>, thresholded: bool, i: int) -> bool {
    0 <= i < scores.len() && (thresholded ==> exceeds_half(scores[i]))
}

/// The number of candidates among the first `n` positions.
pub open spec fn candidate_count(scores: Seq<u32>, thresholded: bool, n: nat) -> nat
    decreases n,
{
    if n == 0 {
        0
    } else if is_candidate(scores, thresholded, n - 1) {
        candidate_count(scores, thresholded, (n - 1) as nat) + 1
    } else {
        candidate_count(scores, thresholded, (n - 1) as nat)
    }
}

/// Whether position `i` ranks before position `j`: its key is higher, or the
/// keys are equal and `i` comes first.
pub open spec fn ranks_before(scores: Seq<u32>, i: int, j: int) -> bool {
    key_of(scores[i]) > key_of(scores[j]) || (key_of(scores[i]) == key_of(scores[j]) && i < j)
}

/// `picked` is the top-`k` selection from `scores`: the `k` candidates that
/// rank first (all of them where there are fewer), in ranking order.
pub open spec fn is_top_k(scores: Seq<u32>, thresholded: bool, k: nat, picked: Seq<usize>) -> bool {
    &&& picked.len() == if k < candidate_count(scores, thresholded, scores.len()) {
        k
    } else {
        candidate_count(scores, thresholded, scores.len())
    }
    &&& forall|i: int|
        0 <= i < picked.len() ==> is_candidate(scores, thresholded, #[trigger] picked[i] as int)
    &&& forall|i: int, j: int|
        0 <= i < j < picked.len() ==> ranks_before(
            scores,
            #[trigger] picked[i] as int,
            #[trigger] picked[j] as int,
        )
    &&& forall|c: int, i: int|
        is_candidate(scores, thresholded, c) && !picked.contains(c as usize) && 0 <= i
            < picked.len() ==> #[trigger] ranks_before(scores, picked[i] as int, c)
}

/// The top-`k` selection from `scores`.
pub open spec fn top_k_of(scores: Seq<u32>, thresholded: bool, k: nat) -> Seq<usize> {
    choose|picked: Seq<usize>| is_top_k(scores, thresholded, k, picked)
}

/// The pair under which position `i` is handed to the selection: the
/// complement of its key, so that a higher key comes out earlier, and the
/// position itself.
spec fn entry_of(scores: Seq<u32>, i: int) -> (i32, usize) {
    ((-1 - key_of(scores[i])) as i32, i as usize)
}

/// Selects the `k` candidates of `scores` that rank first.
pub fn top_k(scores: &Vec<u32>, thresholded: bool, k: usize) -> (picked: Vec<usize>)
    ensures
        is_top_k(scores@, thresholded, k as nat, picked@),
        picked@ == top_k_of(scores@, thresholded, k as nat),
{
    let n = scores.len();
    let mut items: Vec<(i32, usize)> = Vec::new();
    let mut i: usize = 0;
    while i < n
        invariant
            n == scores.len(),
            i <= n,
            items.len() == candidate_count(scores@, thresholded, i as nat),
            forall|j: int|
                0 <= j < items.len() ==> (#[trigger] items[j]).1 < i && is_candidate(
                    scores@,
                    thresholded,
                    items[j].1 as int,
                ) && items[j] == entry_of(scores@, items[j].1 as int),
            forall|j: int, l: int|
                0 <= j < l < items.len() ==> (#[trigger] items[j]).1 < (#[trigger] items[l]).1,
            forall|c: int|
                0 <= c < i && is_candidate(scores@, thresholded, c) ==> items@.contains(
                    #[trigger] entry_of(scores@, c),
                ),
        decreases n - i,
    {
        let bits = scores[i];
        if !thresholded || above_half(bits) {
            let key = total_order_key(bits);
            let ghost before = items@;
            items.push((-1 - key, i));
            proof {
                assert forall|c: int|
                    0 <= c < i + 1 && is_candidate(scores@, thresholded, c) implies items@.contains(
                    #[trigger] entry_of(scores@, c),
                ) by {
                    if c < i {
                        let j = before.index_of(entry_of(scores@, c));
                        assert(items@[j] == entry_of(scores@, c));
                    } else {
                        assert(items@[before.len() as int] == entry_of(scores@, c));
                    }
                }
            }
        }
        i += 1;
    }
    let ghost entries = items@;
    let out = k_smallest(items, k);
    proof {
        lemma_selection(scores@, thresholded, k as nat, entries, out@);
    }
    let mut picked: Vec<usize> = Vec::new();
    let mut m: usize = 0;
    while m < out.len()
        invariant
            m <= out.len(),
            picked.len() == m,
            forall|j: int| 0 <= j < m ==> #[trigger] picked[j] == out[j].1,
        decreases out.len() - m,
    {
        picked.push(out[m].1);
        m += 1;
    }
    proof {
        assert(picked@ =~= out@.map_values(|p: (i32, usize)| p.1));
        lemma_top_k_is_chosen(scores@, thresholded, k as nat, picked@);
    }
    picked
}

/// What the selection of the smallest entries says of the positions.
proof fn lemma_selection(
    scores: Seq<u32>,
    thresholded: bool,
    k: nat,
    entries: Seq<(i32, usize)>,
    out: Seq<(i32, usize)>,
)
    requires
        entries.len() == candidate_count(scores, thresholded, scores.len()),
        forall|j: int|
            0 <= j < entries.len() ==> is_candidate(
                scores,
                thresholded,
                (#[trigger] entries[j]).1 as int,
            ) && entries[j] == entry_of(scores, entries[j].1 as int),
        forall|j: int, l: int|
            0 <= j < l < entries.len() ==> (#[trigger] entries[j]).1 < (#[trigger] entries[l]).1,
        forall|c: int|
            is_candidate(scores, thresholded, c) ==> entries.contains(
                #[trigger] entry_of(scores, c),
            ),
        is_k_smallest(entries, k, out),
    ensures
        is_top_k(scores, thresholded, k, out.map_values(|p: (i32, usize)| p.1)),
{
    broadcast use vstd::seq_lib::group_to_multiset_ensures;

    let picked = out.map_values(|p: (i32, usize)| p.1);
    entries.lemma_multiset_has_no_duplicates();
    assert forall|x: (i32, usize)| out.to_multiset().contains(x) implies out.to_multiset().count(x)
        == 1 by {}
    out.lemma_multiset_has_no_duplicates_conv();
    assert forall|i: int| 0 <= i < out.len() implies entries.contains(#[trigger] out[i]) by {
        assert(entries.to_multiset().count(out[i]) > 0);
    }
    assert forall|i: int| 0 <= i < picked.len() implies is_candidate(
        scores,
        thresholded,
        #[trigger] picked[i] as int,
    ) && out[i] == entry_of(scores, picked[i] as int) by {
        let j = entries.index_of(out[i]);
    }
    assert forall|i: int, j: int| 0 <= i < j < picked.len() implies ranks_before(
        scores,
        #[trigger] picked[i] as int,
        #[trigger] picked[j] as int,
    ) by {}
    assert forall|c: int, i: int|
        is_candidate(scores, thresholded, c) && !picked.contains(c as usize) && 0 <= i
            < picked.len() implies #[trigger] ranks_before(scores, picked[i] as int, c) by {
        let x = entry_of(scores, c);
        if out.to_multiset().count(x) > 0 {
            let m = out.index_of(x);
            assert(picked[m] == c as usize);
        }
    }
}

/// Two selections from the same scores agree on their first `n` positions.
proof fn lemma_prefix_agrees(
    scores: Seq<u32>,
    thresholded: bool,
    k: nat,
    a: Seq<usize>,
    b: Seq<usize>,
    n: nat,
)
    requires
        is_top_k(scores, thresholded, k, a),
        is_top_k(scores, thresholded, k, b),
        n <= a.len(),
    ensures
        forall|i: int| 0 <= i < n ==> a[i] == b[i],
    decreases n,
{
    if n > 0 {
        lemma_prefix_agrees(scores, thresholded, k, a, b, (n - 1) as nat);
        let i = n - 1;
        if a[i] != b[i] {
            lemma_ranks_first(scores, thresholded, k, a, b, i);
            lemma_ranks_first(scores, thresholded, k, b, a, i);
        }
    }
}

/// Where two selections agree before position `i` and differ at it, the
/// position that `b` holds there ranks before the one that `a` holds.
proof fn lemma_ranks_first(
    scores: Seq<u32>,
    thresholded: bool,
    k: nat,
    a: Seq<usize>,
    b: Seq<usize>,
    i: int,
)
    requires
        is_top_k(scores, thresholded, k, a),
        is_top_k(scores, thresholded, k, b),
        0 <= i < a.len(),
        forall|j: int| 0 <= j < i ==> a[j] == b[j],
        a[i] != b[i],
    ensures
        ranks_before(scores, b[i] as int, a[i] as int),
{
    if b.contains(a[i]) {
        let j = b.index_of(a[i]);
    }
}

/// The scores, a threshold and `k` determine the selection: there is no
/// second one.
pub proof fn lemma_top_k_unique(
    scores: Seq<u32>,
    thresholded: bool,
    k: nat,
    a: Seq<usize>,
    b: Seq<usize>,
)
    requires
        is_top_k(scores, thresholded, k, a),
        is_top_k(scores, thresholded, k, b),
    ensures
        a == b,
{
    lemma_prefix_agrees(scores, thresholded, k, a, b, a.len());
}

/// A selection is the selection.
pub proof fn lemma_top_k_is_chosen(scores: Seq<u32>, thresholded: bool, k: nat, picked: Seq<usize>)
    requires
        is_top_k(scores, thresholded, k, picked),
    ensures
        picked == top_k_of(scores, thresholded, k),
{
    lemma_top_k_unique(scores, thresholded, k, picked, top_k_of(scores, thresholded, k));
}

/// A selection holds at most `k` positions, and exactly `k` where there are
/// that many candidates; else it holds every candidate.
pub proof fn lemma_top_k_bound(scores: Seq<u32>, thresholded: bool, k: nat, picked: Seq<usize>)
    requires
        is_top_k(scores, thresholded, k, picked),
    ensures
        picked.len() <= k,
        picked.len() <= candidate_count(scores, thresholded, scores.len()),
        picked.len() == k || picked.len() == candidate_count(scores, thresholded, scores.len()),
        candidate_count(scores, thresholded, scores.len()) <= scores.len(),
{
    lemma_candidate_count_bound(scores, thresholded, scores.len());
}

/// There are no more candidates among the first `n` positions than `n`, and
/// without a threshold there are `n`.
pub proof fn lemma_candidate_count_bound(scores: Seq<u32>, thresholded: bool, n: nat)
    requires
        n <= scores.len(),
    ensures
        candidate_count(scores, thresholded, n) <= n,
        !thresholded ==> candidate_count(scores, thresholded, n) == n,
    decreases n,
{
    if n > 0 {
        lemma_candidate_count_bound(scores, thresholded, (n - 1) as nat);
    }
}

/// The scores of a selection descend under the total order: no position
/// holds a higher key than one before it.
pub proof fn lemma_top_k_descending(
    scores: Seq<u32>,
    thresholded: bool,
    k: nat,
    picked: Seq<usize>,
)
    requires
        is_top_k(scores, thresholded, k, picked),
    ensures
        forall|i: int, j: int|
            0 <= i < j < picked.len() ==> key_of(#[trigger] scores[picked[i] as int]) >= key_of(
                #[trigger] scores[picked[j] as int],
            ),
{
    assert forall|i: int, j: int| 0 <= i < j < picked.len() implies key_of(
        #[trigger] scores[picked[i] as int],
    ) >= key_of(#[trigger] scores[picked[j] as int]) by {}
}

/// Under a threshold, every selected score is above one half.
pub proof fn lemma_top_k_above_half(scores: Seq<u32>, k: nat, picked: Seq<usize>)
    requires
        is_top_k(scores, true, k, picked),
    ensures
        forall|i: int| 0 <= i < picked.len() ==> exceeds_half(#[trigger] scores[picked[i] as int]),
{
    assert forall|i: int| 0 <= i < picked.len() implies exceeds_half(
        #[trigger] scores[picked[i] as int],
    ) by {}
}

/// A key belongs to one bit pattern only.
pub proof fn lemma_key_injective(a: u32, b: u32)
    requires
        key_of(a) == key_of(b),
    ensures
        a == b,
{
}

/// Whether the transform is strictly increasing on the scores: of two
/// scores, the one with the higher key has the higher key after it.
pub open spec fn increasing_on(scores: Seq<u32>, transform: spec_fn(u32) -> u32) -> bool {
    forall|i: int, j: int|
        0 <= i < scores.len() && 0 <= j < scores.len() && key_of(#[trigger] scores[i]) < key_of(
            #[trigger] scores[j],
        ) ==> key_of(transform(scores[i])) < key_of(transform(scores[j]))
}

/// Ranking is unaffected by a transform that is strictly increasing on the
/// scores: the selection without a threshold from the transformed scores is
/// the selection from the scores themselves.
pub proof fn lemma_top_k_increasing_transform(
    scores: Seq<u32>,
    transform: spec_fn(u32) -> u32,
    k: nat,
)
    requires
        scores.len() <= usize::MAX,
        increasing_on(scores, transform),
    ensures
        top_k_of(scores.map_values(transform), false, k) == top_k_of(scores, false, k),
{
    let mapped = scores.map_values(transform);
    let picked = top_k_of(mapped, false, k);
    lemma_top_k_exists(mapped, false, k);
    lemma_candidate_count_bound(scores, false, scores.len());
    lemma_candidate_count_bound(mapped, false, mapped.len());
    assert forall|i: int, j: int| 0 <= i < j < picked.len() implies ranks_before(
        scores,
        #[trigger] picked[i] as int,
        #[trigger] picked[j] as int,
    ) by {
        lemma_ranks_before_reflected(scores, transform, picked[i] as int, picked[j] as int);
    }
    assert forall|c: int, i: int|
        is_candidate(scores, false, c) && !picked.contains(c as usize) && 0 <= i
            < picked.len() implies #[trigger] ranks_before(scores, picked[i] as int, c) by {
        lemma_ranks_before_reflected(scores, transform, picked[i] as int, c);
    }
    assert forall|i: int| 0 <= i < picked.len() implies is_candidate(
        scores,
        false,
        #[trigger] picked[i] as int,
    ) by {}
    lemma_top_k_is_chosen(scores, false, k, picked);
}

/// Where the transform is strictly increasing on the scores, a position that
/// ranks before another by the transformed scores does so by the scores
/// themselves.
proof fn lemma_ranks_before_reflected(
    scores: Seq<u32>,
    transform: spec_fn(u32) -> u32,
    i: int,
    j: int,
)
    requires
        increasing_on(scores, transform),
        0 <= i < scores.len(),
        0 <= j < scores.len(),
        ranks_before(scores.map_values(transform), i, j),
    ensures
        ranks_before(scores, i, j),
{
    if key_of(scores[i]) == key_of(scores[j]) {
        lemma_key_injective(scores[i], scores[j]);
    }
}

/// Every score vector has a selection.
pub proof fn lemma_top_k_exists(scores: Seq<u32>, thresholded: bool, k: nat)
    requires
        scores.len() <= usize::MAX,
    ensures
        is_top_k(scores, thresholded, k, top_k_of(scores, thresholded, k)),
{
    let ranked = ranking(scores, thresholded, scores.len());
    lemma_ranking(scores, thresholded, scores.len());
    let m: nat = if k < ranked.len() {
        k
    } else {
        ranked.len()
    };
    let picked = ranked.take(m as int);
    assert forall|c: int, i: int|
        is_candidate(scores, thresholded, c) && !picked.contains(c as usize) && 0 <= i
            < picked.len() implies #[trigger] ranks_before(scores, picked[i] as int, c) by {
        let j = ranked.index_of(c as usize);
        if j < m {
            assert(picked[j] == c as usize);
        }
    }
    assert(is_top_k(scores, thresholded, k, picked));
}

/// The candidates among the first `n` positions, in ranking order.
spec fn ranking(scores: Seq<u32>, thresholded: bool, n: nat) -> Seq<usize>
    decreases n,
{
    if n == 0 {
        Seq::empty()
    } else {
        let before = ranking(scores, thresholded, (n - 1) as nat);
        if is_candidate(scores, thresholded, n - 1) {
            before.insert(slot(scores, before, n - 1, before.len()), (n - 1) as usize)
        } else {
            before
        }
    }
}

/// How many of the first `m` positions of `ranked` rank before position `c`.
spec fn slot(scores: Seq<u32>, ranked: Seq<usize>, c: int, m: nat) -> int
    decreases m,
{
    if m == 0 {
        0
    } else if ranks_before(scores, ranked[m - 1] as int, c) {
        m as int
    } else {
        slot(scores, ranked, c, (m - 1) as nat)
    }
}

/// `slot` finds where a new position stands in a ranking.
proof fn lemma_slot(scores: Seq<u32>, ranked: Seq<usize>, c: int, m: nat)
    requires
        m <= ranked.len(),
        forall|i: int, j: int|
            0 <= i < j < ranked.len() ==> ranks_before(
                scores,
                #[trigger] ranked[i] as int,
                #[trigger] ranked[j] as int,
            ),
        forall|i: int| 0 <= i < ranked.len() ==> #[trigger] ranked[i] as int != c,
    ensures
        0 <= slot(scores, ranked, c, m) <= m,
        forall|i: int|
            0 <= i < slot(scores, ranked, c, m) ==> ranks_before(
                scores,
                #[trigger] ranked[i] as int,
                c,
            ),
        forall|i: int|
            slot(scores, ranked, c, m) <= i < m ==> ranks_before(
                scores,
                c,
                #[trigger] ranked[i] as int,
            ),
    decreases m,
{
    if m > 0 {
        if ranks_before(scores, ranked[m - 1] as int, c) {
            assert forall|i: int| 0 <= i < m implies ranks_before(
                scores,
                #[trigger] ranked[i] as int,
                c,
            ) by {}
        } else {
            lemma_slot(scores, ranked, c, (m - 1) as nat);
        }
    }
}

/// The ranking holds the candidates among the first `n` positions, each
/// once, in ranking order.
proof fn lemma_ranking(scores: Seq<u32>, thresholded: bool, n: nat)
    requires
        n <= scores.len() <= usize::MAX,
    ensures
        ranking(scores, thresholded, n).len() == candidate_count(scores, thresholded, n),
        forall|i: int|
            0 <= i < ranking(scores, thresholded, n).len() ==> (#[trigger] ranking(
                scores,
                thresholded,
                n,
            )[i]) < n && is_candidate(
                scores,
                thresholded,
                ranking(scores, thresholded, n)[i] as int,
            ),
        forall|i: int, j: int|
            0 <= i < j < ranking(scores, thresholded, n).len() ==> ranks_before(
                scores,
                #[trigger] ranking(scores, thresholded, n)[i] as int,
                #[trigger] ranking(scores, thresholded, n)[j] as int,
            ),
        forall|c: int|
            0 <= c < n && is_candidate(scores, thresholded, c) ==> ranking(
                scores,
                thresholded,
                n,
            ).contains(#[trigger] (c as usize)),
    decreases n,
{
    if n > 0 {
        let before = ranking(scores, thresholded, (n - 1) as nat);
        lemma_ranking(scores, thresholded, (n - 1) as nat);
        if is_candidate(scores, thresholded, n - 1) {
            let c = n - 1;
            lemma_slot(scores, before, c, before.len());
            let at = slot(scores, before, c, before.len());
            let after = before.insert(at, c as usize);
            assert forall|i: int| 0 <= i < after.len() implies (#[trigger] after[i]) < n
                && is_candidate(scores, thresholded, after[i] as int) by {}
            assert forall|i: int, j: int| 0 <= i < j < after.len() implies ranks_before(
                scores,
                #[trigger] after[i] as int,
                #[trigger] after[j] as int,
            ) by {}
            assert forall|d: int|
                0 <= d < n && is_candidate(scores, thresholded, d) implies after.contains(
                #[trigger] (d as usize),
            ) by {
                if d < n - 1 {
                    let j = before.index_of(d as usize);
                    if j < at {
                        assert(after[j] == d as usize);
                    } else {
                        assert(after[j + 1] == d as usize);
                    }
                } else {
                    assert(after[at] == d as usize);
                }
            }
        }
    }
}

} // verus!

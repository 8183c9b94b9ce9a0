//! The ranker: the longest spans first, and no more than asked for.

use crate::span::CPLocation;
use vstd::prelude::*;

verus! {

/// Whether the span at index `a` of `spans` ranks before the one at index
/// `b`: it is longer, or it is as long and was found later. That is the order
/// in which a stable sort by length, read from its end, lists the spans.
pub open spec fn ranks_before(spans: Seq<CPLocation>, a: int, b: int) -> bool {
    spans[a]@.lines() > spans[b]@.lines() || (spans[a]@.lines() == spans[b]@.lines() && a > b)
}

/// Whether `ranked` holds the spans of `spans` at the indices `picks`, in the
/// order of their rank, and every span that is left out ranks after all of
/// them.
pub open spec fn picked(picks: Seq<int>, ranked: Seq<CPLocation>, spans: Seq<CPLocation>) -> bool {
    &&& picks.len() == ranked.len()
    &&& forall|k: int|
        0 <= k < picks.len() ==> 0 <= #[trigger] picks[k] < spans.len() && ranked[k]
            == spans[picks[k]]
    &&& forall|j: int, k: int|
        0 <= j < k < picks.len() ==> ranks_before(spans, #[trigger] picks[j], #[trigger] picks[k])
    &&& forall|i: int, k: int|
        0 <= i < spans.len() && 0 <= k < picks.len() && !picks.contains(i) ==> #[trigger] ranks_before(
            spans,
            #[trigger] picks[k],
            i,
        )
}

/// Whether `ranked` is the ranking of `spans` cut off after `top` spans: the
/// `top` spans of highest rank, or all spans if there are fewer, in the
/// order of their rank. There is one such sequence.
pub open spec fn is_ranking(ranked: Seq<CPLocation>, spans: Seq<CPLocation>, top: nat) -> bool {
    &&& ranked.len() == if top < spans.len() {
        top
    } else {
        spans.len()
    }
    &&& exists|picks: Seq<int>| picked(picks, ranked, spans)
}

/// Whether no span stands before a longer one.
pub open spec fn longest_first(spans: Seq<CPLocation>) -> bool {
    forall|j: int, k: int|
        0 <= j < k < spans.len() ==> (#[trigger] spans[j])@.lines() >= (#[trigger] spans[k])@.lines()
}

/// A ranking holds its spans the longest first.
pub proof fn lemma_ranking_longest_first(
    ranked: Seq<CPLocation>,
    spans: Seq<CPLocation>,
    top: nat,
)
    requires
        is_ranking(ranked, spans, top),
    ensures
        longest_first(ranked),
{
    let picks = choose|picks: Seq<int>| picked(picks, ranked, spans);
    assert forall|j: int, k: int| 0 <= j < k < ranked.len() implies (#[trigger] ranked[j])@.lines()
        >= (#[trigger] ranked[k])@.lines() by {
        assert(ranks_before(spans, picks[j], picks[k]));
    }
}

/// Two choices of indices that both rank the spans of `spans`, equally many,
/// agree at every place.
proof fn lemma_picks_agree(
    a: Seq<int>,
    b: Seq<int>,
    ranked_a: Seq<CPLocation>,
    ranked_b: Seq<CPLocation>,
    spans: Seq<CPLocation>,
    k: int,
)
    requires
        picked(a, ranked_a, spans),
        picked(b, ranked_b, spans),
        a.len() == b.len(),
        0 <= k < a.len(),
    ensures
        a[k] == b[k],
    decreases k,
{
    assert forall|j: int| 0 <= j < k implies a[j] == b[j] by {
        lemma_picks_agree(a, b, ranked_a, ranked_b, spans, j);
    }
    if a[k] != b[k] {
        if ranks_before(spans, a[k], b[k]) {
            lemma_higher_rank_is_picked(a, b, ranked_a, ranked_b, spans, k);
        } else {
            lemma_higher_rank_is_picked(b, a, ranked_b, ranked_a, spans, k);
        }
    }
}

/// Where two choices agree before place `k`, the index that one of them has
/// at `k` does not rank before the index that the other has there.
proof fn lemma_higher_rank_is_picked(
    a: Seq<int>,
    b: Seq<int>,
    ranked_a: Seq<CPLocation>,
    ranked_b: Seq<CPLocation>,
    spans: Seq<CPLocation>,
    k: int,
)
    requires
        picked(a, ranked_a, spans),
        picked(b, ranked_b, spans),
        a.len() == b.len(),
        0 <= k < a.len(),
        forall|j: int| 0 <= j < k ==> a[j] == b[j],
        a[k] != b[k],
    ensures
        !ranks_before(spans, a[k], b[k]),
{
    if ranks_before(spans, a[k], b[k]) {
        if b.contains(a[k]) {
            let m = choose|m: int| 0 <= m < b.len() && b[m] == a[k];
            if m < k {
                assert(ranks_before(spans, a[m], a[k]));
            } else {
                assert(ranks_before(spans, b[k], b[m]));
            }
        } else {
            assert(ranks_before(spans, b[k], a[k]));
        }
    }
}

/// The ranking of `spans` cut off after `top` spans is one sequence: any two
/// are equal.
pub proof fn lemma_ranking_is_one(
    a: Seq<CPLocation>,
    b: Seq<CPLocation>,
    spans: Seq<CPLocation>,
    top: nat,
)
    requires
        is_ranking(a, spans, top),
        is_ranking(b, spans, top),
    ensures
        a == b,
{
    let picks_a = choose|picks: Seq<int>| picked(picks, a, spans);
    let picks_b = choose|picks: Seq<int>| picked(picks, b, spans);
    assert forall|k: int| 0 <= k < a.len() implies a[k] == b[k] by {
        lemma_picks_agree(picks_a, picks_b, a, b, spans, k);
    }
    assert(a =~= b);
}

/// The index of a longest span of `spans`, the last of them.
fn longest(spans: &Vec<CPLocation>) -> (best: usize)
    requires
        spans@.len() > 0,
    ensures
        best < spans@.len(),
        forall|j: int|
            0 <= j <= best ==> (#[trigger] spans@[j])@.lines() <= spans@[best as int]@.lines(),
        forall|j: int|
            best < j < spans@.len() ==> (#[trigger] spans@[j])@.lines()
                < spans@[best as int]@.lines(),
{
    let mut best: usize = 0;
    let mut best_count = spans[0].line_count();
    let mut j: usize = 1;
    while j < spans.len()
        invariant
            1 <= j <= spans@.len(),
            best < j,
            best_count == spans@[best as int]@.lines(),
            forall|k: int| 0 <= k <= best ==> (#[trigger] spans@[k])@.lines() <= best_count,
            forall|k: int| best < k < j ==> (#[trigger] spans@[k])@.lines() < best_count,
        decreases spans@.len() - j,
    {
        let count = spans[j].line_count();
        if count >= best_count {
            best = j;
            best_count = count;
        }
        j = j + 1;
    }
    best
}

/// Ranks the spans found: the `top` longest, or all of them if there are
/// fewer, the longest first. Of spans of one length the one found later comes
/// first.
pub fn rank(spans: Vec<CPLocation>, top: usize) -> (ranked: Vec<CPLocation>)
    ensures
        is_ranking(ranked@, spans@, top as nat),
{
    let mut rest = spans;
    let mut ranked: Vec<CPLocation> = Vec::new();
    let ghost mut picks: Seq<int> = Seq::empty();
    let ghost mut origin: Seq<int> = Seq::new(spans@.len(), |i: int| i);
    proof {
        assert forall|i: int| 0 <= i < spans@.len() implies origin.contains(i) by {
            assert(origin[i] == i);
        }
    }
    while ranked.len() < top && rest.len() > 0
        invariant
            ranked@.len() <= top,
            ranked@.len() + rest@.len() == spans@.len(),
            origin.len() == rest@.len(),
            forall|j: int|
                0 <= j < origin.len() ==> 0 <= #[trigger] origin[j] < spans@.len() && rest@[j]
                    == spans@[origin[j]],
            forall|j: int, k: int|
                0 <= j < k < origin.len() ==> #[trigger] origin[j] < #[trigger] origin[k],
            picks.len() == ranked@.len(),
            forall|k: int|
                0 <= k < picks.len() ==> 0 <= #[trigger] picks[k] < spans@.len() && ranked@[k]
                    == spans@[picks[k]],
            forall|j: int, k: int|
                0 <= j < k < picks.len() ==> ranks_before(
                    spans@,
                    #[trigger] picks[j],
                    #[trigger] picks[k],
                ),
            forall|j: int, k: int|
                0 <= j < origin.len() && 0 <= k < picks.len() ==> ranks_before(
                    spans@,
                    #[trigger] picks[k],
                    #[trigger] origin[j],
                ),
            forall|i: int| 0 <= i < spans@.len() ==> picks.contains(i) || origin.contains(i),
        decreases rest@.len(),
    {
        let best = longest(&rest);
        let ghost picks_before = picks;
        let ghost origin_before = origin;
        let ghost rest_before = rest@;
        let span = rest.remove(best);
        ranked.push(span);
        proof {
            let at = origin_before[best as int];
            picks = picks_before.push(at);
            origin = origin_before.remove(best as int);
            assert forall|j: int| 0 <= j < origin.len() implies ranks_before(
                spans@,
                at,
                #[trigger] origin[j],
            ) by {
                if j < best {
                    assert(origin[j] == origin_before[j]);
                    assert(rest_before[j] == spans@[origin_before[j]]);
                } else {
                    assert(origin[j] == origin_before[j + 1]);
                    assert(rest_before[j + 1] == spans@[origin_before[j + 1]]);
                }
            }
            assert forall|i: int| 0 <= i < spans@.len() implies picks.contains(i)
                || origin.contains(i) by {
                if picks_before.contains(i) {
                    let k = choose|k: int| 0 <= k < picks_before.len() && picks_before[k] == i;
                    assert(picks[k] == i);
                } else {
                    let j = choose|j: int| 0 <= j < origin_before.len() && origin_before[j] == i;
                    if j < best {
                        assert(origin[j] == i);
                    } else if j == best {
                        assert(picks[picks_before.len() as int] == i);
                    } else {
                        assert(origin[j - 1] == i);
                    }
                }
            }
        }
    }
    proof {
        assert forall|i: int, k: int|
            0 <= i < spans@.len() && 0 <= k < picks.len() && !picks.contains(
                i,
            ) implies #[trigger] ranks_before(spans@, #[trigger] picks[k], i) by {
            let j = choose|j: int| 0 <= j < origin.len() && origin[j] == i;
            assert(ranks_before(spans@, picks[k], origin[j]));
        }
        assert(picked(picks, ranked@, spans@));
    }
    ranked
}

} // verus!

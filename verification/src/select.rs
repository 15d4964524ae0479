//! The choice among scored candidates.
//!
//! A candidate that does not share the preference's language has no score
//! (`None`); every other candidate has one. The winner is the candidate with
//! the highest score, and among those with the highest score the one that
//! comes first.

use vstd::prelude::*;

verus! {

/// Whether any candidate has a score.
pub open spec fn has_match(scores: Seq<Option<nat>>) -> bool {
    exists|j: int| 0 <= j < scores.len() && (#[trigger] scores[j]) is Some
}

/// Whether candidate `i` is the winner: it has a score, no candidate has a
/// higher one, and every earlier candidate with a score has a strictly lower
/// one.
pub open spec fn is_first_best(scores: Seq<Option<nat>>, i: int) -> bool {
    &&& 0 <= i < scores.len()
    &&& scores[i] is Some
    &&& forall|j: int|
        0 <= j < scores.len() && (#[trigger] scores[j]) is Some ==> scores[j]->0 <= scores[i]->0
    &&& forall|j: int| 0 <= j < i && (#[trigger] scores[j]) is Some ==> scores[j]->0 < scores[i]->0
}

/// The winner's index, or `None` where no candidate has a score.
pub open spec fn first_best(scores: Seq<Option<nat>>) -> Option<int> {
    if has_match(scores) {
        Some(choose|i: int| is_first_best(scores, i))
    } else {
        None
    }
}

/// The choice over several preferences. Row `k` of `table` holds the scores
/// of the candidates against preference `k`; the first row in which some
/// candidate has a score decides, and its winner is chosen.
pub open spec fn first_choice(table: Seq<Seq<Option<nat>>>) -> Option<int>
    decreases table.len(),
{
    if table.len() == 0 {
        None
    } else {
        match first_best(table[0]) {
            Some(i) => Some(i),
            None => first_choice(table.drop_first()),
        }
    }
}

/// Whether row `k` is the one that decides: some candidate has a score in it
/// and none has one in an earlier row.
pub open spec fn decides(table: Seq<Seq<Option<nat>>>, k: int) -> bool {
    &&& 0 <= k < table.len()
    &&& has_match(table[k])
    &&& forall|e: int| 0 <= e < k ==> !has_match(#[trigger] table[e])
}

/// A score as a mathematical number.
pub open spec fn widen_score(score: Option<u8>) -> Option<nat> {
    match score {
        Some(s) => Some(s as nat),
        None => None,
    }
}

/// The scores as mathematical numbers.
pub open spec fn widen(scores: Seq<Option<u8>>) -> Seq<Option<nat>> {
    Seq::new(scores.len(), |i: int| widen_score(scores[i]))
}

/// At most one candidate is the winner.
pub proof fn lemma_first_best_unique(scores: Seq<Option<nat>>, i: int, k: int)
    requires
        is_first_best(scores, i),
        is_first_best(scores, k),
    ensures
        i == k,
{
    if i < k {
        assert(scores[i]->0 < scores[k]->0);
        assert(scores[k]->0 <= scores[i]->0);
    } else if k < i {
        assert(scores[k]->0 < scores[i]->0);
        assert(scores[i]->0 <= scores[k]->0);
    }
}

/// A candidate that is the winner is the one `first_best` names.
pub proof fn lemma_first_best_is(scores: Seq<Option<nat>>, i: int)
    requires
        is_first_best(scores, i),
    ensures
        first_best(scores) == Some(i),
{
    assert(scores[i] is Some);
    assert(has_match(scores));
    let k = choose|k: int| is_first_best(scores, k);
    lemma_first_best_unique(scores, i, k);
}

/// Where no candidate has a score there is no winner.
pub proof fn lemma_first_best_none(scores: Seq<Option<nat>>)
    requires
        forall|j: int| 0 <= j < scores.len() ==> (#[trigger] scores[j]) is None,
    ensures
        first_best(scores) is None,
{
}

/// What `first_best` names is the winner.
pub proof fn lemma_first_best_some(scores: Seq<Option<nat>>)
    ensures
        first_best(scores) matches Some(i) ==> is_first_best(scores, i),
{
    if has_match(scores) {
        lemma_winner_exists(scores, scores.len() as int);
        assert(scores.take(scores.len() as int) =~= scores);
    }
}

/// Among the first `n` candidates, where one of them has a score, one is the
/// winner of those `n`.
proof fn lemma_winner_exists(scores: Seq<Option<nat>>, n: int)
    requires
        0 <= n <= scores.len(),
    ensures
        has_match(scores.take(n)) ==> exists|i: int| is_first_best(scores.take(n), i),
    decreases n,
{
    let head = scores.take(n);
    if has_match(head) {
        let before = scores.take(n - 1);
        lemma_winner_exists(scores, n - 1);
        assert(forall|j: int| 0 <= j < n - 1 ==> before[j] == head[j]);
        if has_match(before) {
            let w = choose|i: int| is_first_best(before, i);
            if head[n - 1] is Some && head[n - 1]->0 > before[w]->0 {
                assert(is_first_best(head, n - 1));
            } else {
                assert(is_first_best(head, w));
            }
        } else {
            let j = choose|j: int| 0 <= j < head.len() && (#[trigger] head[j]) is Some;
            if j < n - 1 {
                assert(before[j] is Some);
            }
            assert(is_first_best(head, n - 1));
        }
    }
}

/// The choice over several preferences is the winner of the row that decides.
pub proof fn lemma_first_choice_decided(table: Seq<Seq<Option<nat>>>, k: int)
    requires
        decides(table, k),
    ensures
        first_choice(table) == first_best(table[k]),
        first_choice(table) is Some,
    decreases table.len(),
{
    if k == 0 {
    } else {
        let rest = table.drop_first();
        assert(!has_match(table[0]));
        assert(rest[k - 1] == table[k]);
        assert forall|e: int| 0 <= e < k - 1 implies !has_match(#[trigger] rest[e]) by {
            assert(rest[e] == table[e + 1]);
        }
        lemma_first_choice_decided(rest, k - 1);
    }
}

/// Where no row holds a score there is no choice.
pub proof fn lemma_first_choice_none(table: Seq<Seq<Option<nat>>>)
    requires
        forall|k: int| 0 <= k < table.len() ==> !has_match(#[trigger] table[k]),
    ensures
        first_choice(table) is None,
    decreases table.len(),
{
    if table.len() > 0 {
        let rest = table.drop_first();
        assert(!has_match(table[0]));
        assert forall|k: int| 0 <= k < rest.len() implies !has_match(#[trigger] rest[k]) by {
            assert(rest[k] == table[k + 1]);
        }
        lemma_first_choice_none(rest);
    }
}

/// Where there is a choice, some row decides.
pub proof fn lemma_first_choice_some(table: Seq<Seq<Option<nat>>>)
    ensures
        first_choice(table) is Some ==> exists|k: int| decides(table, k),
    decreases table.len(),
{
    if table.len() > 0 {
        if has_match(table[0]) {
            assert(decides(table, 0));
        } else {
            let rest = table.drop_first();
            lemma_first_choice_some(rest);
            if first_choice(rest) is Some {
                let k = choose|k: int| decides(rest, k);
                assert(rest[k] == table[k + 1]);
                assert forall|e: int| 0 <= e < k + 1 implies !has_match(#[trigger] table[e]) by {
                    if e > 0 {
                        assert(rest[e - 1] == table[e]);
                    }
                }
                assert(decides(table, k + 1));
            }
        }
    }
}

/// Where some row holds a score, some row decides.
pub proof fn lemma_decides_exists(table: Seq<Seq<Option<nat>>>, k: int)
    requires
        0 <= k < table.len(),
        has_match(table[k]),
    ensures
        exists|d: int| decides(table, d) && d <= k,
    decreases k,
{
    if forall|e: int| 0 <= e < k ==> !has_match(#[trigger] table[e]) {
        assert(decides(table, k));
    } else {
        let e = choose|e: int| 0 <= e < k && has_match(#[trigger] table[e]);
        lemma_decides_exists(table, e);
    }
}

/// Where there is a choice, it is the winner of the row that decides.
pub proof fn lemma_first_choice_is_winner(table: Seq<Seq<Option<nat>>>)
    ensures
        first_choice(table) matches Some(i) ==> exists|k: int|
            #[trigger] decides(table, k) && is_first_best(table[k], i),
{
    lemma_first_choice_some(table);
    if first_choice(table) is Some {
        let k = choose|k: int| decides(table, k);
        lemma_first_choice_decided(table, k);
        lemma_first_best_some(table[k]);
    }
}

/// A first row without a score is passed over.
pub proof fn lemma_first_choice_fallthrough(table: Seq<Seq<Option<nat>>>)
    requires
        table.len() > 0,
        !has_match(table[0]),
    ensures
        first_choice(table) == first_choice(table.drop_first()),
{
}

/// There is no choice exactly where no row holds a score.
pub proof fn lemma_first_choice_none_iff(table: Seq<Seq<Option<nat>>>)
    ensures
        first_choice(table) is None <==> forall|k: int|
            0 <= k < table.len() ==> !has_match(#[trigger] table[k]),
{
    if forall|k: int| 0 <= k < table.len() ==> !has_match(#[trigger] table[k]) {
        lemma_first_choice_none(table);
    } else {
        let k = choose|k: int| 0 <= k < table.len() && has_match(#[trigger] table[k]);
        lemma_decides_exists(table, k);
        let d = choose|d: int| decides(table, d) && d <= k;
        lemma_first_choice_decided(table, d);
    }
}

/// Of two candidates with the same score the one that stands first is the
/// winner, whichever of the two that is.
pub proof fn lemma_first_of_two_equal(a: Option<nat>, b: Option<nat>)
    requires
        a is Some,
        a == b,
    ensures
        first_best(seq![a, b]) == Some(0int),
        first_best(seq![b, a]) == Some(0int),
{
    assert(is_first_best(seq![a, b], 0));
    lemma_first_best_is(seq![a, b], 0);
}

/// Finds the winner among `scores`.
///
/// The scan goes forward and replaces the running winner only on a strictly
/// higher score, so that of several candidates with the highest score the
/// earliest is kept.
pub fn first_best_index(scores: &Vec<Option<u8>>) -> (r: Option<usize>)
    ensures
        match r {
            Some(i) => first_best(widen(scores@)) == Some(i as int),
            None => first_best(widen(scores@)) is None,
        },
{
    let mut best: Option<(usize, u8)> = None;
    let mut j: usize = 0;
    let ghost wide = widen(scores@);
    while j < scores.len()
        invariant
            0 <= j <= scores.len(),
            wide == widen(scores@),
            match best {
                Some((i, s)) => {
                    &&& i < j
                    &&& scores[i as int] == Some(s)
                    &&& forall|k: int|
                        0 <= k < j && (#[trigger] scores[k]) is Some ==> scores[k]->0 <= s
                    &&& forall|k: int|
                        0 <= k < i && (#[trigger] scores[k]) is Some ==> scores[k]->0 < s
                },
                None => forall|k: int| 0 <= k < j ==> (#[trigger] scores[k]) is None,
            },
        decreases scores.len() - j,
    {
        match scores[j] {
            Some(s) => {
                match best {
                    Some((_, top)) => {
                        if s > top {
                            best = Some((j, s));
                        }
                    },
                    None => {
                        best = Some((j, s));
                    },
                }
            },
            None => {},
        }
        j += 1;
    }
    match best {
        Some((i, s)) => {
            proof {
                assert forall|k: int| 0 <= k < wide.len() && (#[trigger] wide[k]) is Some implies wide[k]->0
                    <= wide[i as int]->0 by {
                    assert(scores[k] is Some);
                }
                assert forall|k: int| 0 <= k < i && (#[trigger] wide[k]) is Some implies wide[k]->0
                    < wide[i as int]->0 by {
                    assert(scores[k] is Some);
                }
                lemma_first_best_is(wide, i as int);
            }
            Some(i)
        },
        None => {
            proof {
                assert forall|k: int| 0 <= k < wide.len() implies (#[trigger] wide[k]) is None by {
                    assert(scores[k] is None);
                }
                lemma_first_best_none(wide);
            }
            None
        },
    }
}

} // verus!

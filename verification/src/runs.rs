//! Runs of equal words: what a sequence of runs stands for, and what a further
//! run does to it.

use vstd::prelude::*;

verus! {

/// The word `word`, `bulk` times.
pub open spec fn repeat(word: u128, bulk: nat) -> Seq<u128> {
    Seq::new(bulk, |i: int| word)
}

/// The words that `runs` stand for, each word as often as its bulk says.
pub open spec fn unfold(runs: Seq<(u128, usize)>) -> Seq<u128>
    decreases runs.len(),
{
    if runs.len() == 0 {
        Seq::empty()
    } else {
        unfold(runs.drop_last()) + repeat(runs.last().0, runs.last().1 as nat)
    }
}

/// The count of words that `runs` stand for.
pub open spec fn total(runs: Seq<(u128, usize)>) -> nat
    decreases runs.len(),
{
    if runs.len() == 0 {
        0
    } else {
        total(runs.drop_last()) + runs.last().1 as nat
    }
}

/// No run is empty and no two neighbours repeat the same word.
pub open spec fn collapsed(runs: Seq<(u128, usize)>) -> bool {
    &&& forall|i: int| 0 <= i < runs.len() ==> (#[trigger] runs[i]).1 > 0
    &&& forall|i: int, j: int|
        0 <= i < runs.len() && j == i + 1 && j < runs.len() ==> (#[trigger] runs[i]).0 != (
        #[trigger] runs[j]).0
}

/// No word of `runs` exceeds `max`.
pub open spec fn within(runs: Seq<(u128, usize)>, max: nat) -> bool {
    forall|i: int| 0 <= i < runs.len() ==> (#[trigger] runs[i]).0 <= max
}

/// `runs` after `bulk` more words `word`: the last run grows where it repeats
/// `word`, else a new run follows it. No empty run is added.
pub open spec fn pushed(runs: Seq<(u128, usize)>, word: u128, bulk: usize) -> Seq<(u128, usize)> {
    if bulk == 0 {
        runs
    } else if runs.len() > 0 && runs.last().0 == word {
        runs.update(runs.len() - 1, (word, (runs.last().1 + bulk) as usize))
    } else {
        runs.push((word, bulk))
    }
}

/// `runs` after each run of `more` in turn.
pub open spec fn pushed_all(runs: Seq<(u128, usize)>, more: Seq<(u128, usize)>) -> Seq<
    (u128, usize),
>
    decreases more.len(),
{
    if more.len() == 0 {
        runs
    } else {
        pushed(pushed_all(runs, more.drop_last()), more.last().0, more.last().1)
    }
}

/// Whether a run can be pushed where words go up to `max`: no word at all
/// always can, else the word must not exceed `max`.
pub open spec fn fits(run: (u128, usize), max: nat) -> bool {
    run.1 == 0 || run.0 <= max
}

/// The count of the runs at the front of `runs` that all fit `max`.
pub open spec fn accepted(runs: Seq<(u128, usize)>, max: nat) -> nat
    decreases runs.len(),
{
    if runs.len() == 0 || !fits(runs.first(), max) {
        0
    } else {
        1 + accepted(runs.drop_first(), max)
    }
}

/// Each of `words` as a run of its own.
pub open spec fn singles(words: Seq<u128>) -> Seq<(u128, usize)> {
    Seq::new(words.len(), |i: int| (words[i], 1usize))
}

/// The runs at the front that all fit end before the first run that does
/// not fit, or with the last run.
pub proof fn lemma_accepted(runs: Seq<(u128, usize)>, max: nat, count: nat)
    requires
        count <= runs.len(),
        forall|i: int| 0 <= i < count ==> fits(#[trigger] runs[i], max),
        count < runs.len() ==> !fits(runs[count as int], max),
    ensures
        accepted(runs, max) == count,
    decreases count,
{
    if count > 0 {
        let rest = runs.drop_first();
        assert forall|i: int| 0 <= i < count - 1 implies fits(#[trigger] rest[i], max) by {
            assert(rest[i] == runs[i + 1]);
        }
        lemma_accepted(rest, max, (count - 1) as nat);
    }
}

/// The runs that are accepted all fit, and the run behind them, if there is
/// one, does not.
pub proof fn lemma_accepted_fit(runs: Seq<(u128, usize)>, max: nat)
    ensures
        accepted(runs, max) <= runs.len(),
        forall|i: int| 0 <= i < accepted(runs, max) ==> fits(#[trigger] runs[i], max),
        accepted(runs, max) < runs.len() ==> !fits(runs[accepted(runs, max) as int], max),
    decreases runs.len(),
{
    if runs.len() > 0 && fits(runs.first(), max) {
        let rest = runs.drop_first();
        lemma_accepted_fit(rest, max);
        assert forall|i: int| 0 <= i < accepted(runs, max) implies fits(#[trigger] runs[i], max) by {
            if i > 0 {
                assert(runs[i] == rest[i - 1]);
            }
        }
        if accepted(runs, max) < runs.len() {
            assert(runs[accepted(runs, max) as int] == rest[accepted(rest, max) as int]);
        }
    }
}

/// The bulks of the runs at the front add up run by run, to no more than the
/// bulks of all runs.
pub proof fn lemma_total_take(runs: Seq<(u128, usize)>, count: int)
    requires
        0 <= count <= runs.len(),
    ensures
        total(runs.take(count)) <= total(runs),
        count < runs.len() ==> total(runs.take(count + 1)) == total(runs.take(count))
            + runs[count].1,
    decreases runs.len() - count,
{
    if count < runs.len() {
        assert(runs.take(count + 1).drop_last() =~= runs.take(count));
        lemma_total_take(runs, count + 1);
    } else {
        assert(runs.take(count) =~= runs);
    }
}

/// Single words count one each.
pub proof fn lemma_total_singles(words: Seq<u128>)
    ensures
        total(singles(words)) == words.len(),
    decreases words.len(),
{
    if words.len() > 0 {
        assert(singles(words).drop_last() =~= singles(words.drop_last()));
        lemma_total_singles(words.drop_last());
    }
}

/// Words, each as a run of its own, stand for themselves.
pub proof fn lemma_unfold_singles(words: Seq<u128>)
    ensures
        unfold(singles(words)) == words,
    decreases words.len(),
{
    if words.len() > 0 {
        assert(singles(words).drop_last() =~= singles(words.drop_last()));
        lemma_unfold_singles(words.drop_last());
        assert(words.drop_last() + repeat(words.last(), 1) =~= words);
    } else {
        assert(unfold(singles(words)) =~= words);
    }
}

/// Runs stand for as many words as their bulks add up to.
pub proof fn lemma_unfold_len(runs: Seq<(u128, usize)>)
    ensures
        unfold(runs).len() == total(runs),
    decreases runs.len(),
{
    if runs.len() > 0 {
        lemma_unfold_len(runs.drop_last());
    }
}

/// The last run is no longer than all runs together.
pub proof fn lemma_last_le_total(runs: Seq<(u128, usize)>)
    requires
        runs.len() > 0,
    ensures
        runs.last().1 <= total(runs),
{
}

/// The words of collapsed runs end with the word of the last run.
pub proof fn lemma_unfold_last(runs: Seq<(u128, usize)>)
    requires
        collapsed(runs),
        runs.len() > 0,
    ensures
        unfold(runs).len() > 0,
        unfold(runs).last() == runs.last().0,
{
    assert(repeat(runs.last().0, runs.last().1 as nat).len() > 0);
}

/// Collapsed runs are the only collapsed runs of the words they stand for.
pub proof fn lemma_collapsed_unique(left: Seq<(u128, usize)>, right: Seq<(u128, usize)>)
    requires
        collapsed(left),
        collapsed(right),
        unfold(left) == unfold(right),
    ensures
        left == right,
    decreases left.len(),
{
    if left.len() == 0 || right.len() == 0 {
        if left.len() > 0 {
            lemma_unfold_last(left);
        }
        if right.len() > 0 {
            lemma_unfold_last(right);
        }
        assert(left =~= right);
    } else {
        let all = unfold(left);
        let (left_front, left_last) = (left.drop_last(), left.last());
        let (right_front, right_last) = (right.drop_last(), right.last());
        lemma_unfold_last(left);
        lemma_unfold_last(right);
        lemma_sooner_ends(left, right);
        lemma_sooner_ends(right, left);
        assert(left_last == right_last);
        assert(unfold(left_front) =~= all.take(all.len() - left_last.1));
        assert(unfold(right_front) =~= all.take(all.len() - right_last.1));
        lemma_collapsed_unique(left_front, right_front);
        assert(left =~= left_front.push(left_last));
        assert(right =~= right_front.push(right_last));
    }
}

/// Of collapsed runs of the same words, the last run of the one is no
/// shorter than the last run of the other.
proof fn lemma_sooner_ends(short: Seq<(u128, usize)>, long: Seq<(u128, usize)>)
    requires
        collapsed(short),
        collapsed(long),
        short.len() > 0,
        long.len() > 0,
        unfold(short) == unfold(long),
    ensures
        short.last().1 >= long.last().1,
{
    let all = unfold(short);
    let front = short.drop_last();
    let word = short.last().0;
    lemma_unfold_last(short);
    lemma_unfold_last(long);
    if short.last().1 < long.last().1 {
        let less = all.len() - short.last().1;
        assert(unfold(front) =~= all.take(less));
        assert(all[less - 1] == repeat(long.last().0, long.last().1 as nat)[less - 1 - unfold(
            long.drop_last(),
        ).len()]);
        assert(unfold(front).len() > 0);
        assert(unfold(front).last() == word);
        if front.len() > 0 {
            lemma_unfold_last(front);
            assert(front.last() == short[short.len() - 2]);
        }
    }
}

/// A further run keeps collapsed runs collapsed and appends its words to the
/// words they stand for.
pub proof fn lemma_pushed(runs: Seq<(u128, usize)>, word: u128, bulk: usize)
    requires
        collapsed(runs),
        total(runs) + bulk <= usize::MAX,
    ensures
        collapsed(pushed(runs, word, bulk)),
        total(pushed(runs, word, bulk)) == total(runs) + bulk,
        unfold(pushed(runs, word, bulk)) == unfold(runs) + repeat(word, bulk as nat),
{
    let next = pushed(runs, word, bulk);
    if bulk == 0 {
        assert(unfold(runs) + repeat(word, 0) =~= unfold(runs));
    } else if runs.len() > 0 && runs.last().0 == word {
        let last = runs.last().1;
        assert(next.drop_last() =~= runs.drop_last());
        assert(repeat(word, (last + bulk) as nat) =~= repeat(word, last as nat) + repeat(
            word,
            bulk as nat,
        ));
        assert(unfold(next) =~= unfold(runs) + repeat(word, bulk as nat));
    } else {
        assert(next.drop_last() =~= runs);
    }
}

/// Words within a maximum stay within it where the further word is.
pub proof fn lemma_pushed_within(runs: Seq<(u128, usize)>, word: u128, bulk: usize, max: nat)
    requires
        within(runs, max),
        word <= max,
    ensures
        within(pushed(runs, word, bulk), max),
{
}

/// Further runs, whatever they collapse into, keep collapsed runs collapsed
/// and append their words, in their order, to the words that were there.
pub proof fn lemma_pushed_all(runs: Seq<(u128, usize)>, more: Seq<(u128, usize)>)
    requires
        collapsed(runs),
        total(runs) + total(more) <= usize::MAX,
    ensures
        collapsed(pushed_all(runs, more)),
        total(pushed_all(runs, more)) == total(runs) + total(more),
        unfold(pushed_all(runs, more)) == unfold(runs) + unfold(more),
    decreases more.len(),
{
    if more.len() == 0 {
        assert(unfold(runs) + unfold(more) =~= unfold(runs));
    } else {
        let front = more.drop_last();
        lemma_pushed_all(runs, front);
        lemma_pushed(pushed_all(runs, front), more.last().0, more.last().1);
        assert(unfold(runs) + unfold(front) + repeat(more.last().0, more.last().1 as nat)
            =~= unfold(runs) + unfold(more));
    }
}

} // verus!

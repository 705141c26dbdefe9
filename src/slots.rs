//! The slot machine: deals digits and scores them.
use vstd::prelude::*;
use crate::play::{points_sum, Play, PlayModel};
use crate::rules::{
    all_digits, digit_count, first_invalid, joined, lemma_points_prefix, lemma_sorted_digits,
    lemma_total_score_bound, long_runs, match_plays, matches_below, segments, sequence_plays,
    total_score,
};
use crate::seed::seed_from_ticks;
use crate::trusted::{join_numbers, random_digit, rng_from_seed, sorted_copy};
use rand::rngs::SmallRng;

verus! {

/// How many digits a deal holds unless another count is given.
pub const SLOT_COUNT: usize = 6;

/// The models of a list of plays.
pub open spec fn models(ps: Seq<Play>) -> Seq<PlayModel> {
    ps.map_values(|p: Play| p@)
}

/// Why a sequence cannot be scored.
#[derive(Clone, Copy, Debug, PartialEq, Eq, Structural)]
pub enum SlotsError {
    /// The entry at `index` is greater than 9.
    InvalidDigit { index: usize },
}

/// A slot machine that deals `count` digits at a time.
pub struct Slots {
    nums: Vec<u32>,
    count: usize,
    last_score: Option<u128>,
}

impl Slots {
    /// The digits of the current deal.
    pub closed spec fn nums_spec(&self) -> Seq<u32> {
        self.nums@
    }

    /// How many digits a deal holds.
    pub closed spec fn count_spec(&self) -> nat {
        self.count as nat
    }

    /// The score of the last evaluation of the current deal, if one was made.
    pub closed spec fn last_score_spec(&self) -> Option<u128> {
        self.last_score
    }

    /// The current deal holds digits only.
    pub open spec fn wf(&self) -> bool {
        all_digits(self.nums_spec())
    }

    /// A machine that deals `count` digits; nothing is dealt yet.
    pub fn new(count: usize) -> (r: Slots)
        ensures
            r.nums_spec() == Seq::<u32>::empty(),
            r.count_spec() == count,
            r.last_score_spec() is None,
            r.wf(),
    {
        Slots { nums: Vec::with_capacity(count), count, last_score: None }
    }

    /// Replaces the current deal with `count` digits drawn at random, with a
    /// generator seeded from the clock reading `ticks` (whole seconds).
    pub fn deal(&mut self, ticks: u128)
        ensures
            final(self).nums_spec().len() == old(self).count_spec(),
            all_digits(final(self).nums_spec()),
            final(self).count_spec() == old(self).count_spec(),
            final(self).last_score_spec() is None,
            final(self).wf(),
    {
        let mut rng = rng_from_seed(seed_from_ticks(ticks));
        self.deal_with(&mut rng);
    }

    /// Replaces the current deal with `count` digits drawn from `rng`.
    pub fn deal_with(&mut self, rng: &mut SmallRng)
        ensures
            final(self).nums_spec().len() == old(self).count_spec(),
            all_digits(final(self).nums_spec()),
            final(self).count_spec() == old(self).count_spec(),
            final(self).last_score_spec() is None,
            final(self).wf(),
    {
        let mut drawn: Vec<u32> = Vec::new();
        let mut i: usize = 0;
        while i < self.count
            invariant
                i <= self.count,
                drawn@.len() == i,
                all_digits(drawn@),
            decreases self.count - i,
        {
            let d = random_digit(rng);
            drawn.push(d);
            i += 1;
        }
        self.deal_digits(drawn);
    }

    /// Replaces the current deal with `digits`, the draws of a digit source in
    /// the order in which they were drawn.
    pub fn deal_digits(&mut self, digits: Vec<u32>)
        requires
            digits@.len() == old(self).count_spec(),
            all_digits(digits@),
        ensures
            final(self).nums_spec() == digits@,
            final(self).count_spec() == old(self).count_spec(),
            final(self).last_score_spec() is None,
            final(self).wf(),
    {
        self.nums = digits;
        self.last_score = None;
    }

    /// The digits of the current deal, in decimal, separated by `|`.
    pub fn get_nums(&self) -> (r: String)
        ensures
            r@ == joined(self.nums_spec()),
    {
        join_numbers(&self.nums)
    }

    /// The digits of the current deal.
    pub fn nums(&self) -> (r: &Vec<u32>)
        ensures
            r@ == self.nums_spec(),
    {
        &self.nums
    }

    /// The score kept by the last evaluation of the current deal.
    pub fn last_score(&self) -> (r: Option<u128>)
        ensures
            r == self.last_score_spec(),
    {
        self.last_score
    }

    /// Scores the current deal, keeps the score and returns it.
    pub fn evaluate_nums(&mut self) -> (r: u128)
        requires
            old(self).wf(),
        ensures
            r == total_score(old(self).nums_spec()),
            final(self).last_score_spec() == Some(r),
            final(self).nums_spec() == old(self).nums_spec(),
            final(self).count_spec() == old(self).count_spec(),
            final(self).wf(),
    {
        let score = match self.calc_score(&self.nums) {
            Ok(v) => v,
            Err(_) => 0,
        };
        self.last_score = Some(score);
        score
    }

    /// Scores `numbers`: the weights of the match plays and of the run plays of
    /// its sorted copy, added up. `numbers` itself is left as it is. Every entry
    /// must be a digit; the first that is not is reported.
    pub fn calc_score(&self, numbers: &Vec<u32>) -> (r: Result<u128, SlotsError>)
        ensures
            r is Ok <==> all_digits(numbers@),
            r matches Ok(v) ==> v == total_score(numbers@),
            r matches Err(SlotsError::InvalidDigit { index }) ==> first_invalid(numbers@, index as int),
    {
        let mut i: usize = 0;
        while i < numbers.len()
            invariant
                0 <= i <= numbers@.len(),
                forall|j: int| 0 <= j < i ==> #[trigger] numbers@[j] <= 9,
            decreases numbers@.len() - i,
        {
            if numbers[i] > 9 {
                return Err(SlotsError::InvalidDigit { index: i });
            }
            i += 1;
        }
        let nums = sorted_copy(numbers);
        proof {
            lemma_sorted_digits(numbers@);
            lemma_total_score_bound(numbers@);
        }
        let matches = self.eval_matches(&nums);
        let sequences = self.eval_sequences(&nums);
        let match_score = sum_points(&matches);
        let seq_score = sum_points(&sequences);
        Ok(match_score + seq_score)
    }

    /// The match plays of a digit sequence: for each digit that occurs at
    /// least twice, in ascending order of the digit, one play holding all its
    /// occurrences.
    pub fn eval_matches(&self, nums: &Vec<u32>) -> (r: Vec<Play>)
        requires
            all_digits(nums@),
        ensures
            models(r@) == match_plays(nums@),
    {
        let mut counts: Vec<usize> = Vec::new();
        let mut k: usize = 0;
        while k < 10
            invariant
                k <= 10,
                counts@.len() == k,
                forall|v: int| 0 <= v < k ==> #[trigger] counts@[v] == 0,
            decreases 10 - k,
        {
            counts.push(0);
            k += 1;
        }
        let n = nums.len();
        let mut i: usize = 0;
        while i < n
            invariant
                n == nums@.len(),
                0 <= i <= n,
                all_digits(nums@),
                counts@.len() == 10,
                forall|v: int| 0 <= v < 10 ==> #[trigger] counts@[v] == digit_count(nums@.take(i as int), v as u32),
                forall|v: int| 0 <= v < 10 ==> #[trigger] counts@[v] <= i,
            decreases n - i,
        {
            let d = nums[i];
            proof {
                assert(nums@.take(i + 1).drop_last() =~= nums@.take(i as int));
            }
            let c = counts[d as usize];
            counts.set(d as usize, c + 1);
            i += 1;
        }
        proof {
            assert(nums@.take(n as int) =~= nums@);
        }
        let mut plays: Vec<Play> = Vec::new();
        let mut k: usize = 0;
        while k < 10
            invariant
                k <= 10,
                counts@.len() == 10,
                forall|v: int| 0 <= v < 10 ==> #[trigger] counts@[v] == digit_count(nums@, v as u32),
                models(plays@) == matches_below(nums@, k as nat),
            decreases 10 - k,
        {
            let c = counts[k];
            if c >= 2 {
                let mut group: Vec<u32> = Vec::new();
                let mut j: usize = 0;
                while j < c
                    invariant
                        j <= c,
                        group@ =~= Seq::new(j as nat, |_i: int| k as u32),
                    decreases c - j,
                {
                    group.push(k as u32);
                    j += 1;
                }
                let ghost before = plays@;
                plays.push(Play::NumMatch(group));
                proof {
                    assert(models(plays@) =~= models(before).push(
                        PlayModel::Match(Seq::new(c as nat, |_i: int| k as u32)),
                    ));
                }
            }
            k += 1;
        }
        plays
    }

    /// The run plays of `nums`: every maximal piece of it in which each
    /// number is one more than the one before, of length three or more, in
    /// order. An equal neighbour ends a piece like any other break.
    pub fn eval_sequences(&self, nums: &Vec<u32>) -> (r: Vec<Play>)
        ensures
            models(r@) == sequence_plays(nums@),
    {
        let mut results: Vec<Play> = Vec::new();
        let mut cur: Vec<u32> = Vec::new();
        let n = nums.len();
        let mut i: usize = 0;
        while i < n
            invariant
                n == nums@.len(),
                0 <= i <= n,
                i == 0 ==> cur@.len() == 0 && results@.len() == 0,
                i > 0 ==> segments(nums@.take(i as int)).len() > 0,
                i > 0 ==> segments(nums@.take(i as int)).last() == cur@,
                i > 0 ==> models(results@) == long_runs(segments(nums@.take(i as int)).drop_last()),
            decreases n - i,
        {
            let d = nums[i];
            let ghost s = nums@.take(i + 1);
            let ghost segs = segments(nums@.take(i as int));
            proof {
                assert(s.drop_last() =~= nums@.take(i as int));
            }
            if i > 0 && nums[i - 1] < u32::MAX && d == nums[i - 1] + 1 {
                cur.push(d);
                proof {
                    let ns = segs.update(segs.len() - 1, segs.last().push(d));
                    assert(segments(s) == ns);
                    assert(ns.drop_last() =~= segs.drop_last());
                }
            } else {
                if cur.len() >= 3 {
                    let ghost before = results@;
                    results.push(Play::NumSequence(cur));
                    proof {
                        assert(models(results@) =~= models(before).push(PlayModel::Sequence(segs.last())));
                    }
                }
                cur = Vec::new();
                cur.push(d);
                proof {
                    assert(segments(s) == segs.push(seq![d]));
                    assert(segs.push(seq![d]).drop_last() =~= segs);
                    assert(cur@ =~= seq![d]);
                }
            }
            i += 1;
        }
        proof {
            assert(nums@.take(n as int) =~= nums@);
        }
        if cur.len() >= 3 {
            let ghost before = results@;
            results.push(Play::NumSequence(cur));
            proof {
                assert(models(results@) =~= models(before).push(PlayModel::Sequence(segments(nums@).last())));
            }
        }
        results
    }
}

impl Default for Slots {
    /// A machine that deals the usual number of digits.
    fn default() -> (r: Slots)
        ensures
            r.nums_spec() == Seq::<u32>::empty(),
            r.count_spec() == SLOT_COUNT,
            r.last_score_spec() is None,
            r.wf(),
    {
        Slots::new(SLOT_COUNT)
    }
}

/// The sum of the weights of `plays`.
fn sum_points(plays: &Vec<Play>) -> (r: u128)
    requires
        points_sum(models(plays@)) <= u128::MAX,
    ensures
        r == points_sum(models(plays@)),
{
    let ghost ms = models(plays@);
    let mut acc: u128 = 0;
    let mut i: usize = 0;
    while i < plays.len()
        invariant
            ms == models(plays@),
            points_sum(ms) <= u128::MAX,
            0 <= i <= plays@.len(),
            acc == points_sum(ms.take(i as int)),
        decreases plays@.len() - i,
    {
        proof {
            assert(ms.take(i + 1).drop_last() =~= ms.take(i as int));
            lemma_points_prefix(ms, i + 1);
        }
        acc = acc + plays[i].get_score();
        i += 1;
    }
    proof {
        assert(ms.take(i as int) =~= ms);
    }
    acc
}

} // verus!

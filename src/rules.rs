//! The scoring rules, stated over sequences of numbers.
use vstd::prelude::*;
use vstd::multiset::Multiset;
use vstd::relations::{sorted_by, total_ordering};
use crate::play::{PlayModel, points_sum};

verus! {

/// Every entry is a decimal digit.
pub open spec fn all_digits(s: Seq<u32>) -> bool {
    forall|i: int| 0 <= i < s.len() ==> #[trigger] s[i] <= 9
}

/// How often `v` occurs in `s`.
pub open spec fn digit_count(s: Seq<u32>, v: u32) -> nat
    decreases s.len(),
{
    if s.len() == 0 {
        0
    } else {
        digit_count(s.drop_last(), v) + if s.last() == v { 1nat } else { 0nat }
    }
}

/// One match play for each digit below `k` that occurs at least twice, in
/// ascending order of the digit, holding every occurrence of it.
pub open spec fn matches_below(s: Seq<u32>, k: nat) -> Seq<PlayModel>
    decreases k,
{
    if k == 0 {
        seq![]
    } else {
        let d = (k - 1) as u32;
        let n = digit_count(s, d);
        let rest = matches_below(s, (k - 1) as nat);
        if n >= 2 {
            rest.push(PlayModel::Match(Seq::new(n, |_i: int| d)))
        } else {
            rest
        }
    }
}

/// The match plays of a digit sequence.
pub open spec fn match_plays(s: Seq<u32>) -> Seq<PlayModel> {
    matches_below(s, 10)
}

/// `s` cut, in order, into maximal pieces in which each entry is one more than
/// the entry before it.
pub open spec fn segments(s: Seq<u32>) -> Seq<Seq<u32>>
    decreases s.len(),
{
    if s.len() == 0 {
        seq![]
    } else {
        let segs = segments(s.drop_last());
        let d = s.last();
        if s.len() >= 2 && d as int == s[s.len() - 2] as int + 1 {
            segs.update(segs.len() - 1, segs.last().push(d))
        } else {
            segs.push(seq![d])
        }
    }
}

/// The pieces of length three or more, as run plays, in order.
pub open spec fn long_runs(segs: Seq<Seq<u32>>) -> Seq<PlayModel>
    decreases segs.len(),
{
    if segs.len() == 0 {
        seq![]
    } else {
        let rest = long_runs(segs.drop_last());
        if segs.last().len() >= 3 {
            rest.push(PlayModel::Sequence(segs.last()))
        } else {
            rest
        }
    }
}

/// The run plays of a sequence, scanned left to right.
pub open spec fn sequence_plays(s: Seq<u32>) -> Seq<PlayModel> {
    long_runs(segments(s))
}

/// The ascending order on numbers.
pub open spec fn ascending() -> spec_fn(u32, u32) -> bool {
    |a: u32, b: u32| a <= b
}

/// `s` sorted ascending.
pub open spec fn sorted_digits(s: Seq<u32>) -> Seq<u32> {
    s.sort_by(ascending())
}

/// The total score of a deal: the weights of the match plays and of the run
/// plays found in its sorted copy.
pub open spec fn total_score(s: Seq<u32>) -> nat {
    let t = sorted_digits(s);
    points_sum(match_plays(t)) + points_sum(sequence_plays(t))
}

/// The character of a decimal digit.
pub open spec fn digit_char(d: nat) -> char {
    seq!['0', '1', '2', '3', '4', '5', '6', '7', '8', '9'][d as int]
}

/// `n` written in decimal, without leading zeros.
pub open spec fn decimal(n: nat) -> Seq<char>
    decreases n,
{
    if n < 10 {
        seq![digit_char(n)]
    } else {
        decimal(n / 10).push(digit_char(n % 10))
    }
}

/// The entries of `s` in decimal, separated by `|`.
pub open spec fn joined(s: Seq<u32>) -> Seq<char>
    decreases s.len(),
{
    if s.len() == 0 {
        seq![]
    } else if s.len() == 1 {
        decimal(s[0] as nat)
    } else {
        joined(s.drop_last()) + seq!['|'] + decimal(s.last() as nat)
    }
}

/// `i` is the first position of `s` that holds no digit.
pub open spec fn first_invalid(s: Seq<u32>, i: int) -> bool {
    &&& 0 <= i < s.len()
    &&& s[i] > 9
    &&& forall|j: int| 0 <= j < i ==> #[trigger] s[j] <= 9
}

/// The number of entries in all pieces together.
pub open spec fn total_len(segs: Seq<Seq<u32>>) -> nat
    decreases segs.len(),
{
    if segs.len() == 0 {
        0
    } else {
        total_len(segs.drop_last()) + segs.last().len()
    }
}

/// `<=` on numbers is a total order.
pub proof fn lemma_ascending_total()
    ensures
        total_ordering(ascending()),
{
}

/// A number occurs at most as often as the sequence is long.
pub proof fn lemma_digit_count_bound(s: Seq<u32>, v: u32)
    ensures
        digit_count(s, v) <= s.len(),
    decreases s.len(),
{
    if s.len() > 0 {
        lemma_digit_count_bound(s.drop_last(), v);
    }
}

/// The match plays of the digits below `k` weigh at most four points per
/// entry, for each of those digits.
pub proof fn lemma_matches_points_bound(s: Seq<u32>, k: nat)
    ensures
        points_sum(matches_below(s, k)) <= 4 * k * s.len(),
    decreases k,
{
    if k > 0 {
        let d = (k - 1) as u32;
        let n = digit_count(s, d);
        let rest = matches_below(s, (k - 1) as nat);
        lemma_matches_points_bound(s, (k - 1) as nat);
        lemma_digit_count_bound(s, d);
        if n >= 2 {
            let m = PlayModel::Match(Seq::new(n, |_i: int| d));
            assert(rest.push(m).drop_last() =~= rest);
        }
        assert(4 * (k - 1) * s.len() + 4 * s.len() == 4 * k * s.len()) by (nonlinear_arith);
    }
}

/// The pieces of a sequence hold all of its entries, and there is at least
/// one piece where there is an entry.
pub proof fn lemma_segments_len(s: Seq<u32>)
    ensures
        total_len(segments(s)) == s.len(),
        s.len() > 0 ==> segments(s).len() > 0,
    decreases s.len(),
{
    if s.len() > 0 {
        let segs = segments(s.drop_last());
        let d = s.last();
        lemma_segments_len(s.drop_last());
        if s.len() >= 2 && d as int == s[s.len() - 2] as int + 1 {
            let ns = segs.update(segs.len() - 1, segs.last().push(d));
            assert(ns.drop_last() =~= segs.drop_last());
        } else {
            assert(segs.push(seq![d]).drop_last() =~= segs);
        }
    }
}

/// The run plays weigh at most five points per entry of the pieces.
pub proof fn lemma_long_runs_points_bound(segs: Seq<Seq<u32>>)
    ensures
        points_sum(long_runs(segs)) <= 5 * total_len(segs),
    decreases segs.len(),
{
    if segs.len() > 0 {
        let rest = long_runs(segs.drop_last());
        lemma_long_runs_points_bound(segs.drop_last());
        if segs.last().len() >= 3 {
            assert(rest.push(PlayModel::Sequence(segs.last())).drop_last() =~= rest);
        }
    }
}

/// A prefix of a list of plays weighs no more than the whole list.
pub proof fn lemma_points_prefix(ps: Seq<PlayModel>, i: int)
    requires
        0 <= i <= ps.len(),
    ensures
        points_sum(ps.take(i)) <= points_sum(ps),
    decreases ps.len(),
{
    if i < ps.len() {
        assert(ps.drop_last().take(i) =~= ps.take(i));
        lemma_points_prefix(ps.drop_last(), i);
    } else {
        assert(ps.take(i) =~= ps);
    }
}

/// Sorting keeps the length and the values of a sequence.
pub proof fn lemma_sorted_digits(s: Seq<u32>)
    ensures
        sorted_digits(s).len() == s.len(),
        sorted_digits(s).to_multiset() == s.to_multiset(),
        sorted_by(sorted_digits(s), ascending()),
        all_digits(s) ==> all_digits(sorted_digits(s)),
{
    broadcast use vstd::seq_lib::group_to_multiset_ensures;

    lemma_ascending_total();
    s.lemma_sort_by_ensures(ascending());
    let t = sorted_digits(s);
    assert(t.len() == t.to_multiset().len());
    if all_digits(s) {
        assert forall|i: int| 0 <= i < t.len() implies #[trigger] t[i] <= 9 by {
            assert(t.contains(t[i]));
            assert(s.contains(t[i]));
        }
    }
}

/// The total score is bounded by nine times the length (at most four points
/// for each entry in a match, and five for each entry in a run).
pub proof fn lemma_total_score_bound(s: Seq<u32>)
    ensures
        total_score(s) <= 45 * s.len(),
{
    let t = sorted_digits(s);
    lemma_sorted_digits(s);
    lemma_matches_points_bound(t, 10);
    lemma_segments_len(t);
    lemma_long_runs_points_bound(segments(t));
    assert(points_sum(match_plays(t)) <= 40 * t.len());
    assert(points_sum(sequence_plays(t)) <= 5 * t.len());
}

/// The score does not depend on the order in which the digits come: two
/// sequences that hold the same numbers, each as often, score the same.
pub proof fn lemma_score_ignores_order(a: Seq<u32>, b: Seq<u32>)
    requires
        a.to_multiset() == b.to_multiset(),
    ensures
        total_score(a) == total_score(b),
{
    lemma_ascending_total();
    lemma_sorted_digits(a);
    lemma_sorted_digits(b);
    vstd::seq_lib::lemma_sorted_unique(sorted_digits(a), sorted_digits(b), ascending());
}

/// The run plays of two lists of pieces put end to end are those of each.
pub proof fn lemma_long_runs_concat(a: Seq<Seq<u32>>, b: Seq<Seq<u32>>)
    ensures
        long_runs(a + b) == long_runs(a) + long_runs(b),
    decreases b.len(),
{
    if b.len() == 0 {
        assert(a + b =~= a);
        assert(long_runs(a) + long_runs(b) =~= long_runs(a));
    } else {
        assert((a + b).drop_last() =~= a + b.drop_last());
        assert((a + b).last() == b.last());
        lemma_long_runs_concat(a, b.drop_last());
        let x = long_runs(a);
        let y = long_runs(b.drop_last());
        assert((x + y).push(PlayModel::Sequence(b.last())) =~= x + y.push(
            PlayModel::Sequence(b.last()),
        ));
    }
}

/// Where `s[i + 1]` is not one more than `s[i]`, the pieces of `s` are those
/// of its first `i + 1` entries followed by those of the rest.
pub proof fn lemma_segments_split(s: Seq<u32>, i: int)
    requires
        0 <= i,
        i + 1 < s.len(),
        s[i + 1] as int != s[i] as int + 1,
    ensures
        segments(s) == segments(s.take(i + 1)) + segments(s.skip(i + 1)),
    decreases s.len(),
{
    let n = s.len() as int;
    let d = s.last();
    let u = s.skip(i + 1);
    if n == i + 2 {
        assert(s.drop_last() =~= s.take(i + 1));
        assert(u =~= seq![d]);
        assert(u.drop_last() =~= Seq::<u32>::empty());
        assert(segments(u.drop_last()) == Seq::<Seq<u32>>::empty());
        assert(u.last() == d);
        assert(segments(u) == Seq::<Seq<u32>>::empty().push(seq![d]));
        assert(segments(u) =~= seq![seq![d]]);
        assert(segments(s.take(i + 1)).push(seq![d]) =~= segments(s.take(i + 1)) + seq![seq![d]]);
    } else {
        let t = s.drop_last();
        lemma_segments_split(t, i);
        assert(t.take(i + 1) =~= s.take(i + 1));
        assert(t.skip(i + 1) =~= u.drop_last());
        let a = segments(s.take(i + 1));
        let b = segments(u.drop_last());
        lemma_segments_len(u.drop_last());
        assert(u.last() == d);
        assert(u[u.len() - 2] == s[n - 2]);
        if d as int == s[n - 2] as int + 1 {
            assert((a + b).update((a + b).len() - 1, (a + b).last().push(d)) =~= a + b.update(
                b.len() - 1,
                b.last().push(d),
            ));
        } else {
            assert((a + b).push(seq![d]) =~= a + b.push(seq![d]));
        }
    }
}

/// A number that is not one more than the number before it ends the run in
/// progress: the run plays of `s` are those of its first `i + 1` entries
/// followed by those of the rest. In particular an equal neighbour splits a
/// run.
pub proof fn lemma_break_splits_runs(s: Seq<u32>, i: int)
    requires
        0 <= i,
        i + 1 < s.len(),
        s[i + 1] as int != s[i] as int + 1,
    ensures
        sequence_plays(s) == sequence_plays(s.take(i + 1)) + sequence_plays(s.skip(i + 1)),
{
    lemma_segments_split(s, i);
    lemma_long_runs_concat(segments(s.take(i + 1)), segments(s.skip(i + 1)));
}

/// A number absent from `s` is counted zero times.
pub proof fn lemma_digit_count_absent(s: Seq<u32>, v: u32)
    requires
        !s.contains(v),
    ensures
        digit_count(s, v) == 0,
    decreases s.len(),
{
    if s.len() > 0 {
        assert(s[s.len() - 1] == s.last());
        if s.drop_last().contains(v) {
            let j = choose|j: int| 0 <= j < s.drop_last().len() && s.drop_last()[j] == v;
            assert(s[j] == v);
        }
        lemma_digit_count_absent(s.drop_last(), v);
    }
}

/// The count of a number is its multiplicity.
pub proof fn lemma_digit_count_multiset(s: Seq<u32>, v: u32)
    ensures
        digit_count(s, v) == s.to_multiset().count(v),
    decreases s.len(),
{
    broadcast use vstd::seq_lib::group_to_multiset_ensures;

    if s.len() > 0 {
        lemma_digit_count_multiset(s.drop_last(), v);
        assert(s.drop_last().push(s.last()) =~= s);
    } else {
        assert(s.to_multiset() =~= Multiset::empty());
    }
}

/// In a sequence without repeats each number is counted at most once.
pub proof fn lemma_digit_count_unique(s: Seq<u32>, v: u32)
    requires
        s.no_duplicates(),
    ensures
        digit_count(s, v) <= 1,
    decreases s.len(),
{
    if s.len() > 0 {
        let t = s.drop_last();
        assert(t.no_duplicates());
        if s.last() == v && t.contains(v) {
            let j = choose|j: int| 0 <= j < t.len() && t[j] == v;
            assert(s[j] == s[s.len() - 1]);
        }
        if s.last() == v {
            lemma_digit_count_absent(t, v);
        } else {
            lemma_digit_count_unique(t, v);
        }
    }
}

/// No match play comes from numbers that are each counted at most once.
pub proof fn lemma_no_matches(s: Seq<u32>, k: nat)
    requires
        forall|v: u32| #[trigger] digit_count(s, v) <= 1,
    ensures
        matches_below(s, k).len() == 0,
    decreases k,
{
    if k > 0 {
        lemma_no_matches(s, (k - 1) as nat);
        assert(digit_count(s, (k - 1) as u32) <= 1);
    }
}

/// `s` has three neighbouring entries that go up by one each.
pub open spec fn has_step_triple(s: Seq<u32>) -> bool {
    exists|m: int|
        2 <= m < s.len() && s[m - 1] as int == s[m - 2] as int + 1 && #[trigger] s[m] as int
            == s[m - 1] as int + 1
}

/// The last piece ends at the last entry, and where no three neighbours go up
/// by one each, every piece has at most two entries.
pub proof fn lemma_short_segments(s: Seq<u32>)
    ensures
        s.len() >= 2 && segments(s).last().len() >= 2 ==> s[s.len() - 1] as int == s[s.len()
            - 2] as int + 1,
        s.len() > 0 ==> segments(s).len() > 0 && segments(s).last().len() >= 1,
        !has_step_triple(s) ==> forall|j: int|
            0 <= j < segments(s).len() ==> (#[trigger] segments(s)[j]).len() <= 2,
    decreases s.len(),
{
    if s.len() > 0 {
        let t = s.drop_last();
        let n = s.len() as int;
        let d = s.last();
        lemma_short_segments(t);
        let segs = segments(t);
        if !has_step_triple(s) {
            assert(!has_step_triple(t)) by {
                if has_step_triple(t) {
                    let m = choose|m: int|
                        2 <= m < t.len() && t[m - 1] as int == t[m - 2] as int + 1
                            && #[trigger] t[m] as int == t[m - 1] as int + 1;
                    assert(s[m] == t[m]);
                }
            }
        }
        if n >= 2 && d as int == s[n - 2] as int + 1 {
            if !has_step_triple(s) && segs.last().len() >= 2 {
                assert(s[n - 1] as int == s[n - 2] as int + 1);
                assert(s[n - 2] == t[n - 2] && s[n - 3] == t[n - 3]);
                assert(s[n - 1] as int == s[n - 1] as int);
            }
        }
    }
}

/// Pieces of at most two entries give no run play.
pub proof fn lemma_no_long_runs(segs: Seq<Seq<u32>>)
    requires
        forall|j: int| 0 <= j < segs.len() ==> (#[trigger] segs[j]).len() <= 2,
    ensures
        long_runs(segs).len() == 0,
    decreases segs.len(),
{
    if segs.len() > 0 {
        assert(segs.last() == segs[segs.len() - 1]);
        lemma_no_long_runs(segs.drop_last());
    }
}

/// A sequence with no repeated number and without three numbers `x`, `x + 1`
/// and `x + 2` scores nothing: it has neither a match nor a run.
pub proof fn lemma_no_plays_score_zero(s: Seq<u32>)
    requires
        s.no_duplicates(),
        forall|i: int, j: int, k: int|
            0 <= i < s.len() && 0 <= j < s.len() && 0 <= k < s.len() ==> !(#[trigger] s[j] as int
                == #[trigger] s[i] as int + 1 && #[trigger] s[k] as int == s[i] as int + 2),
    ensures
        total_score(s) == 0,
{
    let t = sorted_digits(s);
    lemma_sorted_digits(s);
    lemma_ascending_total();
    s.lemma_sort_by_ensures(ascending());
    assert forall|v: u32| #[trigger] digit_count(t, v) <= 1 by {
        lemma_digit_count_multiset(t, v);
        lemma_digit_count_multiset(s, v);
        lemma_digit_count_unique(s, v);
    }
    lemma_no_matches(t, 10);
    assert(!has_step_triple(t)) by {
        if has_step_triple(t) {
            let m = choose|m: int|
                2 <= m < t.len() && t[m - 1] as int == t[m - 2] as int + 1 && #[trigger] t[m] as int
                    == t[m - 1] as int + 1;
            assert(t.contains(t[m - 2]) && t.contains(t[m - 1]) && t.contains(t[m]));
            let i = choose|i: int| 0 <= i < s.len() && s[i] == t[m - 2];
            let j = choose|j: int| 0 <= j < s.len() && s[j] == t[m - 1];
            let k = choose|k: int| 0 <= k < s.len() && s[k] == t[m];
            assert(s[j] as int == s[i] as int + 1 && s[k] as int == s[i] as int + 2);
        }
    }
    lemma_short_segments(t);
    lemma_no_long_runs(segments(t));
    assert(match_plays(t) =~= Seq::<PlayModel>::empty());
    assert(sequence_plays(t) =~= Seq::<PlayModel>::empty());
}

} // verus!

use crate::round::Round;
use crate::search::{
    lemma_span_capped, lemma_span_concat, lemma_span_keeps_in_range, lemma_span_positive, lemma_span_push, lemma_span_remove,
    power, span,
};
use rand::Rng;
use vstd::multiset::{group_multiset_axioms, Multiset};
use vstd::prelude::*;
use vstd::seq_lib::{to_multiset_build, to_multiset_remove};

verus! {

/// The four large numbers, one of each.
pub open spec fn large_pool() -> Seq<u32> {
    seq![25u32, 50u32, 75u32, 100u32]
}

/// The small numbers: one to ten, two of each.
pub open spec fn small_pool() -> Seq<u32> {
    seq![
        1u32, 1u32, 2u32, 2u32, 3u32, 3u32, 4u32, 4u32, 5u32, 5u32,
        6u32, 6u32, 7u32, 7u32, 8u32, 8u32, 9u32, 9u32, 10u32, 10u32,
    ]
}

/// Each pick is a place in what is left of a pot that held `size` numbers
/// before the first pick.
pub open spec fn picks_fit(size: int, picks: Seq<u32>) -> bool {
    forall|k: int| 0 <= k < picks.len() ==> #[trigger] picks[k] < size - k
}

/// What is left of `pot` after the numbers at `picks` were taken out, one
/// after the other, each pick counting places in what the earlier ones left.
pub open spec fn pot_after(pot: Seq<u32>, picks: Seq<u32>) -> Seq<u32>
    decreases picks.len(),
{
    if picks.len() == 0 {
        pot
    } else {
        pot_after(pot, picks.drop_last()).remove(picks.last() as int)
    }
}

/// The numbers that `picks` take out of `pot`, in the order of the picks.
pub open spec fn drawn(pot: Seq<u32>, picks: Seq<u32>) -> Seq<u32>
    decreases picks.len(),
{
    if picks.len() == 0 {
        Seq::empty()
    } else {
        drawn(pot, picks.drop_last()).push(
            pot_after(pot, picks.drop_last())[picks.last() as int],
        )
    }
}

/// The selection of a round with `num_larges` large numbers: the first
/// `num_larges` picks draw from the large pool, the others from the small.
pub open spec fn dealt(num_larges: int, picks: Seq<u32>) -> Seq<u32> {
    drawn(large_pool(), picks.take(num_larges)) + drawn(small_pool(), picks.skip(num_larges))
}

/// Drawing moves numbers and neither makes nor loses any: what was drawn
/// and what is left are together what the pot held.
pub proof fn lemma_drawn_from_pot(pot: Seq<u32>, picks: Seq<u32>)
    requires
        picks_fit(pot.len() as int, picks),
    ensures
        drawn(pot, picks).len() == picks.len(),
        pot_after(pot, picks).len() == pot.len() - picks.len(),
        drawn(pot, picks).to_multiset().add(pot_after(pot, picks).to_multiset())
            == pot.to_multiset(),
        drawn(pot, picks).to_multiset().subset_of(pot.to_multiset()),
    decreases picks.len(),
{
    broadcast use group_multiset_axioms;

    if picks.len() > 0 {
        let front = picks.drop_last();
        assert(picks_fit(pot.len() as int, front)) by {
            assert forall|k: int| 0 <= k < front.len() implies #[trigger] front[k] < pot.len()
                - k by {
                assert(front[k] == picks[k]);
            }
        }
        lemma_drawn_from_pot(pot, front);
        let left = pot_after(pot, front);
        let at = picks.last() as int;
        assert(picks[picks.len() - 1] < pot.len() - (picks.len() - 1));
        to_multiset_remove(left, at);
        to_multiset_build(drawn(pot, front), left[at]);
        left.to_multiset_ensures();
        assert(left.contains(left[at]));
        assert(left.to_multiset().count(left[at]) > 0);
        let taken = drawn(pot, front).to_multiset();
        assert(drawn(pot, picks) == drawn(pot, front).push(left[at]));
        assert(pot_after(pot, picks) == left.remove(at));
        assert(drawn(pot, picks).to_multiset() == taken.insert(left[at]));
        assert(pot_after(pot, picks).to_multiset() == left.to_multiset().remove(left[at]));
        assert(taken.insert(left[at]).add(left.to_multiset().remove(left[at])) =~= taken.add(
            left.to_multiset(),
        ));
        assert(drawn(pot, picks).to_multiset().add(pot_after(pot, picks).to_multiset())
            =~= pot.to_multiset());
    } else {
        drawn(pot, picks).to_multiset_ensures();
        assert forall|a: u32| drawn(pot, picks).to_multiset().count(a) == 0 by {
            assert(!drawn(pot, picks).contains(a));
        }
        assert(drawn(pot, picks).to_multiset() =~= Multiset::<u32>::empty());
        assert(drawn(pot, picks).to_multiset().add(pot_after(pot, picks).to_multiset())
            =~= pot.to_multiset());
    }
}

/// What was drawn and what is left have, multiplied, the span of the pot; so
/// the span of what was drawn is at most that of the pot.
pub proof fn lemma_drawn_span(pot: Seq<u32>, picks: Seq<u32>)
    requires
        picks_fit(pot.len() as int, picks),
    ensures
        span(drawn(pot, picks)) * span(pot_after(pot, picks)) == span(pot),
        span(drawn(pot, picks)) <= span(pot),
    decreases picks.len(),
{
    lemma_span_positive(pot_after(pot, picks));
    if picks.len() > 0 {
        let front = picks.drop_last();
        assert(picks_fit(pot.len() as int, front)) by {
            assert forall|k: int| 0 <= k < front.len() implies #[trigger] front[k] < pot.len()
                - k by {
                assert(front[k] == picks[k]);
            }
        }
        lemma_drawn_span(pot, front);
        lemma_drawn_from_pot(pot, front);
        let left = pot_after(pot, front);
        let at = picks.last() as int;
        assert(picks[picks.len() - 1] < pot.len() - (picks.len() - 1));
        lemma_span_remove(left, at);
        lemma_span_push(drawn(pot, front), left[at]);
        let d = span(drawn(pot, front));
        let x = (left[at] + 1) as nat;
        let r = span(left.remove(at));
        assert((d * x) * r == d * (r * x)) by (nonlinear_arith);
        assert(drawn(pot, picks) == drawn(pot, front).push(left[at]));
        assert(pot_after(pot, picks) == left.remove(at));
        assert(span(drawn(pot, picks)) == d * x);
        assert(span(left) == r * x);
    } else {
        assert(span(drawn(pot, picks)) == 1);
        assert(pot_after(pot, picks) == pot);
        assert(1 * span(pot) == span(pot));
    }
    let d = span(drawn(pot, picks));
    let r = span(pot_after(pot, picks));
    assert(d <= d * r) by (nonlinear_arith)
        requires
            r >= 1,
    ;
}

/// Whatever the picks, the six numbers of a round leave room in `u32` for
/// every step on them.
pub proof fn lemma_dealt_within_limits(num_larges: int, picks: Seq<u32>)
    requires
        0 <= num_larges <= 4,
        picks.len() == 6,
        picks_fit(4, picks.take(num_larges)),
        picks_fit(20, picks.skip(num_larges)),
    ensures
        span(dealt(num_larges, picks)) <= u32::MAX,
{
    let larges = drawn(large_pool(), picks.take(num_larges));
    let smalls = drawn(small_pool(), picks.skip(num_larges));
    lemma_drawn_from_pot(large_pool(), picks.take(num_larges));
    lemma_drawn_from_pot(small_pool(), picks.skip(num_larges));
    lemma_drawn_span(large_pool(), picks.take(num_larges));
    lemma_span_concat(larges, smalls);
    assert(span(large_pool()) == 10178376) by {
        let s0 = Seq::<u32>::empty();
        let s1 = s0.push(25u32);
        let s2 = s1.push(50u32);
        let s3 = s2.push(75u32);
        let s4 = s3.push(100u32);
        assert(large_pool() =~= s4);
        lemma_span_push(s0, 25u32);
        lemma_span_push(s1, 50u32);
        lemma_span_push(s2, 75u32);
        lemma_span_push(s3, 100u32);
        assert(span(s0) == 1);
        assert(span(s1) == 26);
        assert(span(s2) == span(s1) * 51);
        assert(span(s2) == 1326);
        assert(span(s3) == span(s2) * 76);
        assert(span(s3) == 100776);
        assert(span(s4) == span(s3) * 101);
        assert(span(s4) == 10178376);
    }
    assert forall|k: int| 0 <= k < larges.len() implies larges[k] <= 100 by {
        larges.to_multiset_ensures();
        large_pool().to_multiset_ensures();
        assert(larges.contains(larges[k]));
        assert(large_pool().to_multiset().count(larges[k]) > 0);
        let at = choose|at: int| 0 <= at < 4 && large_pool()[at] == larges[k];
        assert(large_pool()[at] <= 100);
    }
    assert forall|k: int| 0 <= k < smalls.len() implies smalls[k] <= 10 by {
        smalls.to_multiset_ensures();
        small_pool().to_multiset_ensures();
        assert(smalls.contains(smalls[k]));
        assert(small_pool().to_multiset().count(smalls[k]) > 0);
        let at = choose|at: int| 0 <= at < 20 && small_pool()[at] == smalls[k];
        assert(small_pool()[at] <= 10);
    }
    lemma_span_capped(larges, 100);
    lemma_span_capped(smalls, 10);
    reveal_with_fuel(power, 7);
    let l = span(larges);
    let s = span(smalls);
    if num_larges == 4 {
        assert(l * s <= 10178376 * 121) by (nonlinear_arith)
            requires
                l <= 10178376,
                s <= 121,
        ;
    } else if num_larges == 3 {
        assert(l * s <= 1030301 * 1331) by (nonlinear_arith)
            requires
                l <= 1030301,
                s <= 1331,
        ;
    } else if num_larges == 2 {
        assert(l * s <= 10201 * 14641) by (nonlinear_arith)
            requires
                l <= 10201,
                s <= 14641,
        ;
    } else if num_larges == 1 {
        assert(l * s <= 101 * 161051) by (nonlinear_arith)
            requires
                l <= 101,
                s <= 161051,
        ;
    } else {
        assert(l * s <= 1 * 1771561) by (nonlinear_arith)
            requires
                l <= 1,
                s <= 1771561,
        ;
    }
}

/// A random number from `low` up to, not including, `high`: the generator
/// that `rand::thread_rng` hands out, asked by `Rng::gen_range` for one
/// sample of the half-open range. All that is claimed is that the sample
/// lies in the range: which number comes is left open, and two calls may
/// differ. `gen_range` panics on an empty range, which `requires` leaves
/// out.
#[verifier::external_body]
fn random_in(low: u32, high: u32) -> (sample: u32)
    requires
        low < high,
    ensures
        low <= sample < high,
{
    rand::thread_rng().gen_range(low..high)
}

/// Moves the numbers at `picks[from..to]` out of `pot`, one after the other,
/// to the end of `selection`.
fn draw(pot: Vec<u32>, picks: &Vec<u32>, from: usize, to: usize, selection: &mut Vec<u32>)
    requires
        from <= to <= picks@.len(),
        picks_fit(pot@.len() as int, picks@.subrange(from as int, to as int)),
    ensures
        final(selection)@ == old(selection)@ + drawn(pot@, picks@.subrange(from as int, to as int)),
{
    let ghost full = pot@;
    let ghost range = picks@.subrange(from as int, to as int);
    let mut pot = pot;
    let mut k: usize = from;
    while k < to
        invariant
            from <= k <= to <= picks@.len(),
            range == picks@.subrange(from as int, to as int),
            picks_fit(full.len() as int, range),
            pot@ == pot_after(full, picks@.subrange(from as int, k as int)),
            pot@.len() == full.len() - (k - from),
            selection@ == old(selection)@ + drawn(full, picks@.subrange(from as int, k as int)),
        decreases to - k,
    {
        let ghost before = picks@.subrange(from as int, k as int);
        let ghost now = picks@.subrange(from as int, k + 1);
        proof {
            assert(now.drop_last() =~= before);
            assert(now.last() == picks@[k as int]);
            assert(range[k - from] == picks@[k as int]);
        }
        let number = pot.remove(picks[k] as usize);
        selection.push(number);
        k += 1;
        assert(selection@ =~= old(selection)@ + drawn(full, now));
    }
    assert(picks@.subrange(from as int, k as int) =~= range);
}

impl Round {
    /// The round that the given picks and target make: no chance is left in
    /// it. The first `num_larges` picks draw from the large pool, the others
    /// from the small pool; each pick counts places in what is left of its
    /// pool.
    pub fn deal(num_larges: u32, picks: &Vec<u32>, target: u32) -> (round: Round)
        requires
            num_larges <= 4,
            picks@.len() == 6,
            picks_fit(4, picks@.take(num_larges as int)),
            picks_fit(20, picks@.skip(num_larges as int)),
        ensures
            round.selection@ == dealt(num_larges as int, picks@),
            round.target == target,
            round.within_limits(),
            round.selection@.len() == 6,
            round.selection@.take(num_larges as int).to_multiset().subset_of(
                large_pool().to_multiset(),
            ),
            round.selection@.skip(num_larges as int).to_multiset().subset_of(
                small_pool().to_multiset(),
            ),
    {
        let mut selection: Vec<u32> = Vec::new();
        let large_pot: Vec<u32> = vec![25, 50, 75, 100];
        let small_pot: Vec<u32> = vec![
            1, 1, 2, 2, 3, 3, 4, 4, 5, 5, 6, 6, 7, 7, 8, 8, 9, 9, 10, 10,
        ];
        let ghost larges = picks@.take(num_larges as int);
        let ghost smalls = picks@.skip(num_larges as int);
        proof {
            assert(large_pot@ =~= large_pool());
            assert(small_pot@ =~= small_pool());
            assert(picks@.subrange(0, num_larges as int) =~= larges);
            assert(picks@.subrange(num_larges as int, 6) =~= smalls);
            lemma_drawn_from_pot(large_pool(), larges);
            lemma_drawn_from_pot(small_pool(), smalls);
            lemma_dealt_within_limits(num_larges as int, picks@);
            lemma_span_keeps_in_range(dealt(num_larges as int, picks@));
        }
        draw(large_pot, picks, 0, num_larges as usize, &mut selection);
        draw(small_pot, picks, num_larges as usize, 6, &mut selection);
        proof {
            assert(selection@ =~= dealt(num_larges as int, picks@));
            assert(selection@.take(num_larges as int) =~= drawn(large_pool(), larges));
            assert(selection@.skip(num_larges as int) =~= drawn(small_pool(), smalls));
        }
        Round { selection, target }
    }

    /// A round by chance, with `num_larges` of its six numbers drawn from
    /// the large pool and the others from the small pool, nothing drawn
    /// twice, and a target from 101 to 998. There are four large numbers:
    /// a caller that asks for more has made an error, and one that was not
    /// verified is stopped with a panic.
    pub fn new(num_larges: u32) -> (round: Round)
        requires
            num_larges <= 4,
        ensures
            round.selection@.len() == 6,
            round.selection@.take(num_larges as int).to_multiset().subset_of(
                large_pool().to_multiset(),
            ),
            round.selection@.skip(num_larges as int).to_multiset().subset_of(
                small_pool().to_multiset(),
            ),
            101 <= round.target <= 998,
            round.within_limits(),
    {
        // A count out of range ends the construction here, before anything is drawn.
        let counted: Option<u32> = if num_larges > 4 {
            None
        } else {
            Some(num_larges)
        };
        let num_larges = counted.expect("I said between 0 and 4!");
        let mut picks: Vec<u32> = Vec::new();
        let mut k: u32 = 0;
        while k < 6
            invariant
                num_larges <= 4,
                k <= 6,
                picks@.len() == k,
                forall|t: int| 0 <= t < k && t < num_larges ==> #[trigger] picks@[t] < 4 - t,
                forall|t: int| num_larges <= t < k ==> #[trigger] picks@[t] < 20 - (t - num_larges),
            decreases 6 - k,
        {
            let left: u32 = if k < num_larges {
                4 - k
            } else {
                20 - (k - num_larges)
            };
            picks.push(random_in(0, left));
            k += 1;
        }
        let target = random_in(101, 999);
        Round::deal(num_larges, &picks, target)
    }
}

} // verus!

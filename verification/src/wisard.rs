//! The classifier: one discriminator per class label, created lazily on
//! first training, sharing one fixed address mapping.
//!
//! Class probabilities are exact rationals: each class's vote count over
//! the common RAM count. The bleaching search and the confidence decision
//! are carried out in integer arithmetic, so every comparison in the
//! decision procedure is exact.

use crate::discriminator::{forget_rel, spec_rams_count, train_rel, Discriminator};
use crate::ConfigurationError;
use rand::seq::SliceRandom;
use vstd::prelude::*;
use vstd::seq_lib::group_to_multiset_ensures;

verus! {

/// An exact non-negative rational `num / den`.
#[derive(Clone, Copy, Debug, PartialEq, Eq, Structural)]
pub struct Ratio {
    pub num: u64,
    pub den: u64,
}

impl Ratio {
    /// The ratio denotes a value in [0, 1].
    pub open spec fn is_proper(self) -> bool {
        1 <= self.den && self.num <= self.den
    }

    /// The zero rational, the sentinel probability and confidence.
    pub fn zero() -> (r: Ratio)
        ensures
            r == (Ratio { num: 0u64, den: 1u64 }),
    {
        Ratio { num: 0, den: 1 }
    }
}

/// The mapping that reads retina positions in their natural order.
pub open spec fn identity_mapping(n: nat) -> Seq<usize> {
    Seq::new(n, |i: int| i as usize)
}

/// Relies on rand's `SliceRandom::shuffle`: an in-place Fisher-Yates
/// shuffle built from element swaps, so the result holds exactly the
/// elements the input held. Which order comes out depends on the
/// thread-local generator, so nothing more is assumed.
#[verifier::external_body]
fn shuffle_indices(indices: &mut Vec<usize>)
    ensures
        final(indices)@.to_multiset() == old(indices)@.to_multiset(),
{
    indices.shuffle(&mut rand::rng());
}

/// A sequence holding the same elements as the identity mapping is as long
/// and stays within the same bounds.
proof fn lemma_identity_rearrangement_bounds(mapping: Seq<usize>, n: nat)
    requires
        n <= usize::MAX,
        mapping.to_multiset() == identity_mapping(n).to_multiset(),
    ensures
        mapping.len() == n,
        forall|i: int| 0 <= i < mapping.len() ==> (#[trigger] mapping[i] as int) < n,
{
    broadcast use group_to_multiset_ensures;

    assert(mapping.to_multiset().len() == mapping.len());
    assert(identity_mapping(n).to_multiset().len() == identity_mapping(n).len());
    assert(mapping.len() == identity_mapping(n).len());
    assert forall|i: int| 0 <= i < mapping.len() implies (#[trigger] mapping[i] as int) < n by {
        assert(mapping.contains(mapping[i]));
        assert(identity_mapping(n).to_multiset().count(mapping[i]) > 0);
        assert(identity_mapping(n).contains(mapping[i]));
        let j = choose|j: int| 0 <= j < n && identity_mapping(n)[j] == mapping[i];
        assert(identity_mapping(n)[j] == j as usize);
    }
}

/// Copies a vector of indices element by element.
fn copy_indices(values: &Vec<usize>) -> (result: Vec<usize>)
    ensures
        result@ == values@,
{
    let mut result: Vec<usize> = Vec::new();
    let mut i: usize = 0;
    while i < values.len()
        invariant
            i <= values@.len(),
            result@ == values@.take(i as int),
        decreases values@.len() - i,
    {
        result.push(values[i]);
        proof {
            assert(result@ =~= values@.take(i as int + 1));
        }
        i = i + 1;
    }
    proof {
        assert(values@.take(values@.len() as int) =~= values@);
    }
    result
}

/// How many of a discriminator's RAM responses exceed a threshold: the
/// class's votes once the threshold filters weak cells out.
pub open spec fn votes_above(ram_values: Seq<u64>, threshold: u64) -> nat
    decreases ram_values.len(),
{
    if ram_values.len() == 0 {
        0
    } else {
        votes_above(ram_values.drop_last(), threshold) + (if ram_values.last() > threshold {
            1nat
        } else {
            0nat
        })
    }
}

/// Law: raising the rejection threshold never increases any class's count
/// of RAM votes above it — bleaching trades recall for decisiveness
/// monotonically.
pub proof fn lemma_votes_above_monotone(ram_values: Seq<u64>, t1: u64, t2: u64)
    requires
        t1 <= t2,
    ensures
        votes_above(ram_values, t2) <= votes_above(ram_values, t1),
    decreases ram_values.len(),
{
    if ram_values.len() > 0 {
        lemma_votes_above_monotone(ram_values.drop_last(), t1, t2);
    }
}

/// A class's votes never exceed its RAM count.
pub proof fn lemma_votes_above_le_len(ram_values: Seq<u64>, threshold: u64)
    ensures
        votes_above(ram_values, threshold) <= ram_values.len(),
    decreases ram_values.len(),
{
    if ram_values.len() > 0 {
        lemma_votes_above_le_len(ram_values.drop_last(), threshold);
    }
}

proof fn lemma_votes_above_pos(ram_values: Seq<u64>, threshold: u64)
    requires
        votes_above(ram_values, threshold) > 0,
    ensures
        exists|c: int| 0 <= c < ram_values.len() && ram_values[c] > threshold,
    decreases ram_values.len(),
{
    if ram_values.last() > threshold {
        assert(ram_values[ram_values.len() - 1] > threshold);
    } else {
        lemma_votes_above_pos(ram_values.drop_last(), threshold);
        let c = choose|c: int|
            0 <= c < ram_values.drop_last().len() && ram_values.drop_last()[c] > threshold;
        assert(ram_values[c] > threshold);
    }
}

/// The largest value in a sequence of counters (0 when empty).
pub open spec fn seq_max_u64(values: Seq<u64>) -> u64
    decreases values.len(),
{
    if values.len() == 0 {
        0u64
    } else {
        let rest = seq_max_u64(values.drop_last());
        if values.last() > rest {
            values.last()
        } else {
            rest
        }
    }
}

proof fn lemma_seq_max_ge(values: Seq<u64>)
    ensures
        forall|i: int| 0 <= i < values.len() ==> #[trigger] values[i] <= seq_max_u64(values),
    decreases values.len(),
{
    if values.len() > 0 {
        lemma_seq_max_ge(values.drop_last());
        assert forall|i: int| 0 <= i < values.len() implies #[trigger] values[i] <= seq_max_u64(
            values,
        ) by {
            if i < values.len() - 1 {
                assert(values.drop_last()[i] == values[i]);
                assert(values.drop_last()[i] <= seq_max_u64(values.drop_last()));
            }
        }
    }
}

/// The largest RAM response over all classes.
pub open spec fn max_response(responses: Seq<Seq<u64>>) -> u64
    decreases responses.len(),
{
    if responses.len() == 0 {
        0u64
    } else {
        let rest = max_response(responses.drop_last());
        let inner = seq_max_u64(responses.last());
        if inner > rest {
            inner
        } else {
            rest
        }
    }
}

proof fn lemma_inner_le_max_response(responses: Seq<Seq<u64>>)
    ensures
        forall|i: int|
            0 <= i < responses.len() ==> seq_max_u64(#[trigger] responses[i]) <= max_response(
                responses,
            ),
    decreases responses.len(),
{
    if responses.len() > 0 {
        lemma_inner_le_max_response(responses.drop_last());
        assert forall|i: int| 0 <= i < responses.len() implies seq_max_u64(
            #[trigger] responses[i],
        ) <= max_response(responses) by {
            if i < responses.len() - 1 {
                assert(responses.drop_last()[i] == responses[i]);
                assert(seq_max_u64(responses.drop_last()[i]) <= max_response(
                    responses.drop_last(),
                ));
            }
        }
    }
}

/// Every class's votes above a threshold, in class order.
pub open spec fn votes_at_threshold(responses: Seq<Seq<u64>>, threshold: u64) -> Seq<u64> {
    Seq::new(responses.len(), |i: int| votes_above(responses[i], threshold) as u64)
}

/// If any class still has a vote above `threshold`, some RAM response
/// exceeds it, so `threshold` lies below the largest response.
proof fn lemma_bleach_step_bound(responses: Seq<Seq<u64>>, threshold: u64)
    requires
        seq_max_u64(votes_at_threshold(responses, threshold)) > 0,
    ensures
        threshold < max_response(responses),
{
    let next = votes_at_threshold(responses, threshold);
    lemma_seq_max_pos(next);
    let i = choose|i: int| 0 <= i < next.len() && next[i] > 0;
    assert(votes_above(responses[i], threshold) > 0);
    lemma_votes_above_pos(responses[i], threshold);
    let c = choose|c: int| 0 <= c < responses[i].len() && responses[i][c] > threshold;
    lemma_seq_max_ge(responses[i]);
    lemma_inner_le_max_response(responses);
}

proof fn lemma_seq_max_pos(values: Seq<u64>)
    requires
        seq_max_u64(values) > 0,
    ensures
        exists|i: int| 0 <= i < values.len() && values[i] > 0,
    decreases values.len(),
{
    if values.last() == seq_max_u64(values) && values.last() > 0 {
        assert(values[values.len() - 1] > 0);
    } else {
        lemma_seq_max_pos(values.drop_last());
        let i = choose|i: int|
            0 <= i < values.drop_last().len() && values.drop_last()[i] > 0;
        assert(values[i] > 0);
    }
}

/// The running maximum, second maximum, and the index holding the maximum
/// over a sequence of vote counts, scanned in class order: a later class
/// takes the lead only with a strictly greater count. An index of -1 means
/// no class ever exceeded zero.
pub open spec fn conf_stats(votes: Seq<u64>) -> (int, u64, u64)
    decreases votes.len(),
{
    if votes.len() == 0 {
        (-1, 0u64, 0u64)
    } else {
        let prior = conf_stats(votes.drop_last());
        let p = votes.last();
        if prior.1 < p {
            (votes.len() - 1, p, prior.1)
        } else if prior.2 < p {
            (prior.0, prior.1, p)
        } else {
            prior
        }
    }
}

/// What the vote scan yields: the first component is the index holding the
/// maximum (-1 exactly when no vote is positive), the second the maximum
/// itself, the third a second maximum no greater.
pub proof fn lemma_conf_stats_shape(votes: Seq<u64>)
    ensures
        ({
            let stats = conf_stats(votes);
            &&& -1 <= stats.0 < votes.len()
            &&& stats.2 <= stats.1
            &&& (stats.0 == -1 <==> stats.1 == 0)
            &&& (stats.0 >= 0 ==> votes[stats.0] == stats.1)
            &&& forall|i: int| 0 <= i < votes.len() ==> #[trigger] votes[i] <= stats.1
        }),
    decreases votes.len(),
{
    if votes.len() > 0 {
        lemma_conf_stats_shape(votes.drop_last());
        assert(forall|i: int|
            0 <= i < votes.len() - 1 ==> #[trigger] votes[i] == votes.drop_last()[i]);
    }
}

/// Whether the confidence `(max - second) / max` falls below a minimum;
/// a maximum of zero counts as zero confidence.
pub open spec fn confidence_value_below(max: u64, second: u64, minimum: Ratio) -> bool {
    if max == 0 {
        0 < minimum.num
    } else {
        (max - second) * minimum.den < minimum.num * max
    }
}

/// Whether the confidence of a vote distribution falls below a minimum.
pub open spec fn confidence_below(votes: Seq<u64>, minimum: Ratio) -> bool {
    confidence_value_below(conf_stats(votes).1, conf_stats(votes).2, minimum)
}

/// The bleaching search from a threshold: while the confidence of the
/// current votes is below the minimum, refilter every class's responses at
/// the threshold and raise it by one; if no class survives a filtering,
/// give up and yield the original votes.
pub open spec fn spec_bleach(
    original: Seq<u64>,
    responses: Seq<Seq<u64>>,
    current: Seq<u64>,
    threshold: u64,
    minimum: Ratio,
) -> Seq<u64>
    decreases
            (if threshold <= max_response(responses) {
                max_response(responses) - threshold + 1
            } else {
                0int
            }),
    via spec_bleach_decreases
{
    if !confidence_below(current, minimum) {
        current
    } else {
        let next = votes_at_threshold(responses, threshold);
        if seq_max_u64(next) == 0 {
            original
        } else {
            spec_bleach(original, responses, next, (threshold + 1) as u64, minimum)
        }
    }
}

#[via_fn]
proof fn spec_bleach_decreases(
    original: Seq<u64>,
    responses: Seq<Seq<u64>>,
    current: Seq<u64>,
    threshold: u64,
    minimum: Ratio,
) {
    if confidence_below(current, minimum) {
        let next = votes_at_threshold(responses, threshold);
        if seq_max_u64(next) != 0 {
            lemma_bleach_step_bound(responses, threshold);
        }
    }
}

/// The bleaching result is as long as the original vote list, provided the
/// lists agree in length.
proof fn lemma_spec_bleach_len(
    original: Seq<u64>,
    responses: Seq<Seq<u64>>,
    current: Seq<u64>,
    threshold: u64,
    minimum: Ratio,
)
    requires
        current.len() == original.len(),
        responses.len() == original.len(),
    ensures
        spec_bleach(original, responses, current, threshold, minimum).len() == original.len(),
    decreases
            (if threshold <= max_response(responses) {
                max_response(responses) - threshold + 1
            } else {
                0int
            }),
{
    if confidence_below(current, minimum) {
        let next = votes_at_threshold(responses, threshold);
        if seq_max_u64(next) != 0 {
            lemma_bleach_step_bound(responses, threshold);
            lemma_spec_bleach_len(
                original,
                responses,
                next,
                (threshold + 1) as u64,
                minimum,
            );
        }
    }
}

/// The bleaching search never answers a vote count above a bound that
/// holds of the starting votes, the fallback votes, and every class's RAM
/// count: each step's counts are filtered subsets of the responses.
pub proof fn lemma_spec_bleach_bounded(
    original: Seq<u64>,
    responses: Seq<Seq<u64>>,
    current: Seq<u64>,
    threshold: u64,
    minimum: Ratio,
    bound: u64,
)
    requires
        forall|i: int| 0 <= i < original.len() ==> #[trigger] original[i] <= bound,
        forall|i: int| 0 <= i < current.len() ==> #[trigger] current[i] <= bound,
        forall|i: int| 0 <= i < responses.len() ==> (#[trigger] responses[i]).len() <= bound,
    ensures
        forall|i: int|
            0 <= i < spec_bleach(original, responses, current, threshold, minimum).len()
                ==> #[trigger] spec_bleach(original, responses, current, threshold, minimum)[i]
                <= bound,
    decreases
            (if threshold <= max_response(responses) {
                max_response(responses) - threshold + 1
            } else {
                0int
            }),
{
    let result = spec_bleach(original, responses, current, threshold, minimum);
    if !confidence_below(current, minimum) {
        assert(result == current);
    } else {
        let next = votes_at_threshold(responses, threshold);
        assert forall|i: int| 0 <= i < next.len() implies #[trigger] next[i] <= bound by {
            lemma_votes_above_le_len(responses[i], threshold);
            assert(votes_above(responses[i], threshold) <= bound);
        }
        if seq_max_u64(next) == 0 {
            assert(result == original);
        } else {
            lemma_bleach_step_bound(responses, threshold);
            lemma_spec_bleach_bounded(
                original,
                responses,
                next,
                (threshold + 1) as u64,
                minimum,
                bound,
            );
            assert(result == spec_bleach(
                original,
                responses,
                next,
                (threshold + 1) as u64,
                minimum,
            ));
        }
    }
}

/// Counts the RAM responses strictly greater than the threshold.
fn count_votes_above(ram_values: &Vec<u64>, threshold: u64) -> (count: usize)
    ensures
        count as nat == votes_above(ram_values@, threshold),
        count <= ram_values@.len(),
{
    let mut count: usize = 0;
    let mut i: usize = 0;
    while i < ram_values.len()
        invariant
            i <= ram_values@.len(),
            count <= i,
            count as nat == votes_above(ram_values@.take(i as int), threshold),
        decreases ram_values@.len() - i,
    {
        proof {
            assert(ram_values@.take(i as int + 1).drop_last() =~= ram_values@.take(i as int));
        }
        if ram_values[i] > threshold {
            count = count + 1;
        }
        i = i + 1;
    }
    proof {
        assert(ram_values@.take(ram_values@.len() as int) =~= ram_values@);
    }
    count
}

/// The running maximum, second maximum, and leading index of a vote list,
/// scanned in class order.
fn calculate_confidence_stats(votes: &Vec<u64>) -> (result: (Option<usize>, u64, u64))
    ensures
        ({
            let stats = conf_stats(votes@);
            &&& match result.0 {
                Some(b) => b as int == stats.0 && (b as int) < votes@.len(),
                None => stats.0 == -1,
            }
            &&& result.1 == stats.1
            &&& result.2 == stats.2
            &&& result.2 <= result.1
        }),
{
    let mut best: Option<usize> = None;
    let mut max: u64 = 0;
    let mut second: u64 = 0;
    let mut i: usize = 0;
    while i < votes.len()
        invariant
            i <= votes@.len(),
            ({
                let stats = conf_stats(votes@.take(i as int));
                &&& match best {
                    Some(b) => b as int == stats.0 && (b as int) < i,
                    None => stats.0 == -1,
                }
                &&& max == stats.1
                &&& second == stats.2
                &&& second <= max
            }),
        decreases votes@.len() - i,
    {
        proof {
            assert(votes@.take(i as int + 1).drop_last() =~= votes@.take(i as int));
        }
        let p = votes[i];
        if max < p {
            second = max;
            max = p;
            best = Some(i);
        } else if second < p {
            second = p;
        }
        i = i + 1;
    }
    proof {
        assert(votes@.take(votes@.len() as int) =~= votes@);
    }
    (best, max, second)
}

/// Compares the confidence `(max - second) / max` against the minimum by
/// cross-multiplication, exactly.
fn is_confidence_below(max: u64, second: u64, minimum: &Ratio) -> (r: bool)
    requires
        second <= max,
    ensures
        r == confidence_value_below(max, second, *minimum),
{
    if max == 0 {
        minimum.num > 0
    } else {
        let diff = max - second;
        proof {
            vstd::arithmetic::mul::lemma_mul_upper_bound(
                diff as int,
                u64::MAX as int,
                minimum.den as int,
                u64::MAX as int,
            );
            vstd::arithmetic::mul::lemma_mul_upper_bound(
                minimum.num as int,
                u64::MAX as int,
                max as int,
                u64::MAX as int,
            );
        }
        (diff as u128) * (minimum.den as u128) < (minimum.num as u128) * (max as u128)
    }
}

/// Copies a vote list element by element.
fn copy_votes(values: &Vec<u64>) -> (result: Vec<u64>)
    ensures
        result@ == values@,
{
    let mut result: Vec<u64> = Vec::new();
    let mut i: usize = 0;
    while i < values.len()
        invariant
            i <= values@.len(),
            result@ == values@.take(i as int),
        decreases values@.len() - i,
    {
        result.push(values[i]);
        proof {
            assert(result@ =~= values@.take(i as int + 1));
        }
        i = i + 1;
    }
    proof {
        assert(values@.take(values@.len() as int) =~= values@);
    }
    result
}

/// Runs the bleaching search: refilters every class's responses at the
/// rising threshold until the confidence clears the minimum, or yields the
/// original votes once no class survives.
fn bleach_from(
    original: &Vec<u64>,
    responses: &Vec<Vec<u64>>,
    current: Vec<u64>,
    threshold: u64,
    minimum: &Ratio,
) -> (result: Vec<u64>)
    ensures
        result@ == spec_bleach(original@, responses.deep_view(), current@, threshold, *minimum),
    decreases
            (if threshold <= max_response(responses.deep_view()) {
                max_response(responses.deep_view()) - threshold + 1
            } else {
                0int
            }),
{
    let ghost resp = responses.deep_view();
    let stats = calculate_confidence_stats(&current);
    let below = is_confidence_below(stats.1, stats.2, minimum);
    if !below {
        return current;
    }
    let mut next: Vec<u64> = Vec::new();
    let mut max_value: u64 = 0;
    let mut i: usize = 0;
    while i < responses.len()
        invariant
            i <= responses@.len(),
            resp == responses.deep_view(),
            next@.len() == i,
            forall|k: int|
                0 <= k < i ==> #[trigger] next@[k] == (votes_above(resp[k], threshold) as u64),
            max_value == seq_max_u64(next@),
        decreases responses@.len() - i,
    {
        let count = count_votes_above(&responses[i], threshold);
        proof {
            assert(resp[i as int] == responses@[i as int]@);
            lemma_votes_above_le_len(resp[i as int], threshold);
        }
        let count64: u64 = count as u64;
        let ghost prev_next = next@;
        next.push(count64);
        if count64 > max_value {
            max_value = count64;
        }
        proof {
            assert(next@.drop_last() =~= prev_next);
        }
        i = i + 1;
    }
    proof {
        assert(next@ =~= votes_at_threshold(resp, threshold));
    }
    if max_value == 0 {
        return copy_votes(original);
    }
    proof {
        lemma_bleach_step_bound(resp, threshold);
    }
    bleach_from(original, responses, next, threshold + 1, minimum)
}

/// Law-support: every class's final vote count is at most the shared RAM
/// count `rams_count()`, so every probability `votes / rams_count()` lies
/// in [0, 1]; the vote list runs one entry per class.
pub proof fn lemma_final_votes_bounded(w: Wisard, retina: Seq<bool>)
    requires
        w.wf(),
    ensures
        w.spec_final_votes(retina).len() == w.class_count(),
        forall|i: int|
            0 <= i < w.spec_final_votes(retina).len() ==> #[trigger] w.spec_final_votes(retina)[i]
                <= w.rams_count(),
{
    w.lemma_shape();
    let responses = w.spec_all_responses(retina);
    let raw = votes_at_threshold(responses, 0);
    let bound = w.rams_count() as u64;
    assert forall|i: int| 0 <= i < raw.len() implies #[trigger] raw[i] <= bound by {
        lemma_votes_above_le_len(responses[i], 0);
    }
    assert(forall|i: int|
        0 <= i < responses.len() ==> (#[trigger] responses[i]).len() <= bound);
    if w.use_bleaching() {
        lemma_spec_bleach_bounded(
            raw,
            responses,
            raw,
            w.bleaching_threshold(),
            w.minimum_confidence(),
            bound,
        );
        lemma_spec_bleach_len(raw, responses, raw, w.bleaching_threshold(), w.minimum_confidence());
    }
}

/// A discriminator trained exactly once, starting from empty tables: each
/// RAM counts 1 at the address the retina packs for it and 0 elsewhere.
pub open spec fn freshly_trained(d: Discriminator, retina: Seq<bool>) -> bool {
    forall|c: int, a: u64|
        0 <= c < d.rams_count() ==> #[trigger] d.count(c, a) == (if a as nat == d.spec_address(
            retina,
            c,
        ) {
            1u64
        } else {
            0u64
        })
}

pub struct Wisard {
    retina_size: usize,
    ram_num_bits: usize,
    use_bleaching: bool,
    minimum_confidence: Ratio,
    bleaching_threshold: u64,
    is_cumulative: bool,
    discriminators: Vec<(String, Discriminator)>,
    ram_address_mapping: Vec<usize>,
}

impl Wisard {
    pub closed spec fn retina_size(self) -> usize {
        self.retina_size
    }

    pub closed spec fn ram_num_bits(self) -> usize {
        self.ram_num_bits
    }

    pub closed spec fn use_bleaching(self) -> bool {
        self.use_bleaching
    }

    pub closed spec fn minimum_confidence(self) -> Ratio {
        self.minimum_confidence
    }

    pub closed spec fn bleaching_threshold(self) -> u64 {
        self.bleaching_threshold
    }

    pub closed spec fn is_cumulative(self) -> bool {
        self.is_cumulative
    }

    pub closed spec fn mapping(self) -> Seq<usize> {
        self.ram_address_mapping@
    }

    /// How many class labels have a discriminator.
    pub closed spec fn class_count(self) -> int {
        self.discriminators@.len() as int
    }

    /// The class labels, in the order their discriminators were created.
    pub closed spec fn labels(self) -> Seq<Seq<char>> {
        Seq::new(self.discriminators@.len(), |i: int| self.discriminators@[i].0@)
    }

    /// The discriminator of the `i`-th class.
    pub closed spec fn disc(self, i: int) -> Discriminator {
        self.discriminators@[i].1
    }

    pub open spec fn has_label(self, name: Seq<char>) -> bool {
        exists|i: int| 0 <= i < self.class_count() && self.labels()[i] == name
    }

    /// The position of a known label; labels are unique.
    pub open spec fn label_index(self, name: Seq<char>) -> int {
        choose|i: int| 0 <= i < self.class_count() && self.labels()[i] == name
    }

    pub closed spec fn wf(self) -> bool {
        &&& self.retina_size >= 1
        &&& 1 <= self.ram_num_bits <= 62
        &&& self.minimum_confidence.is_proper()
        &&& self.ram_address_mapping@.len() == self.retina_size
        &&& forall|i: int|
            0 <= i < self.ram_address_mapping@.len() ==> (#[trigger] self.ram_address_mapping@[i]
                as int) < self.retina_size
        &&& forall|i: int, j: int|
            0 <= i < j < self.labels().len() ==> self.labels()[i] != self.labels()[j]
        &&& forall|i: int|
            0 <= i < self.class_count() ==> {
                &&& (#[trigger] self.disc(i)).wf()
                &&& self.disc(i).retina_size() == self.retina_size
                &&& self.disc(i).ram_num_bits() == self.ram_num_bits
                &&& self.disc(i).is_cumulative() == self.is_cumulative
                &&& self.disc(i).mapping() == self.ram_address_mapping@
            }
    }

    /// What well-formedness pins about a classifier's shape: labels and
    /// discriminators run in step, every discriminator shares the
    /// classifier's configuration and owns the common `rams_count()` RAMs
    /// (at least one), and labels are unique.
    pub proof fn lemma_shape(self)
        requires
            self.wf(),
        ensures
            self.labels().len() == self.class_count(),
            self.class_count() >= 0,
            self.retina_size() >= 1,
            1 <= self.ram_num_bits() <= 62,
            self.rams_count() >= 1,
            self.rams_count() <= self.retina_size(),
            self.mapping().len() == self.retina_size(),
            forall|i: int, j: int|
                0 <= i < j < self.class_count() ==> self.labels()[i] != self.labels()[j],
            forall|i: int|
                0 <= i < self.class_count() ==> {
                    &&& (#[trigger] self.disc(i)).wf()
                    &&& self.disc(i).retina_size() == self.retina_size()
                    &&& self.disc(i).ram_num_bits() == self.ram_num_bits()
                    &&& self.disc(i).is_cumulative() == self.is_cumulative()
                    &&& self.disc(i).mapping() == self.mapping()
                    &&& self.disc(i).rams_count() == self.rams_count()
                },
    {
        crate::discriminator::lemma_rams_count_le_retina(
            self.retina_size() as nat,
            self.ram_num_bits() as nat,
        );
        assert forall|i: int| 0 <= i < self.class_count() implies {
            &&& (#[trigger] self.disc(i)).wf()
            &&& self.disc(i).retina_size() == self.retina_size()
            &&& self.disc(i).ram_num_bits() == self.ram_num_bits()
            &&& self.disc(i).is_cumulative() == self.is_cumulative()
            &&& self.disc(i).mapping() == self.mapping()
            &&& self.disc(i).rams_count() == self.rams_count()
        } by {
            assert(self.disc(i).wf());
            self.disc(i).lemma_shape();
        }
    }

    /// Everything fixed at construction agrees between two states: only
    /// the discriminators may differ.
    pub open spec fn same_settings(pre: Wisard, post: Wisard) -> bool {
        &&& post.retina_size() == pre.retina_size()
        &&& post.ram_num_bits() == pre.ram_num_bits()
        &&& post.use_bleaching() == pre.use_bleaching()
        &&& post.minimum_confidence() == pre.minimum_confidence()
        &&& post.bleaching_threshold() == pre.bleaching_threshold()
        &&& post.is_cumulative() == pre.is_cumulative()
        &&& post.mapping() == pre.mapping()
    }

    /// `post` is `pre` after training an already-known label on a retina:
    /// that label's discriminator is trained, everything else stands.
    pub open spec fn trained_existing(
        pre: Wisard,
        post: Wisard,
        name: Seq<char>,
        retina: Seq<bool>,
    ) -> bool {
        let i = pre.label_index(name);
        &&& post.class_count() == pre.class_count()
        &&& post.labels() == pre.labels()
        &&& train_rel(pre.disc(i), post.disc(i), retina)
        &&& forall|j: int|
            0 <= j < pre.class_count() && j != i ==> post.disc(j) == pre.disc(j)
    }

    /// `post` is `pre` after training a never-seen label on a retina: a
    /// freshly created, once-trained discriminator is appended for it.
    pub open spec fn trained_new(
        pre: Wisard,
        post: Wisard,
        name: Seq<char>,
        retina: Seq<bool>,
    ) -> bool {
        &&& post.class_count() == pre.class_count() + 1
        &&& post.labels() == pre.labels().push(name)
        &&& forall|j: int| 0 <= j < pre.class_count() ==> post.disc(j) == pre.disc(j)
        &&& freshly_trained(post.disc(pre.class_count() as int), retina)
    }

    /// `post` is `pre` after forgetting a known label's retina: that
    /// label's discriminator forgets it, everything else stands.
    pub open spec fn forgot_existing(
        pre: Wisard,
        post: Wisard,
        name: Seq<char>,
        retina: Seq<bool>,
    ) -> bool {
        let i = pre.label_index(name);
        &&& post.class_count() == pre.class_count()
        &&& post.labels() == pre.labels()
        &&& forget_rel(pre.disc(i), post.disc(i), retina)
        &&& forall|j: int|
            0 <= j < pre.class_count() && j != i ==> post.disc(j) == pre.disc(j)
    }

    /// A classifier with no discriminators yet. The address mapping is the
    /// identity permutation, or a random rearrangement of it when
    /// `randomize_positions` is set.
    pub fn new(
        retina_size: usize,
        ram_num_bits: usize,
        use_bleaching: bool,
        minimum_confidence: Ratio,
        bleaching_threshold: u64,
        randomize_positions: bool,
        is_cumulative: bool,
    ) -> (result: Result<Wisard, ConfigurationError>)
        requires
            retina_size >= 1,
        ensures
            match result {
                Ok(w) => {
                    &&& 1 <= ram_num_bits <= 62
                    &&& minimum_confidence.is_proper()
                    &&& w.wf()
                    &&& w.retina_size() == retina_size
                    &&& w.ram_num_bits() == ram_num_bits
                    &&& w.use_bleaching() == use_bleaching
                    &&& w.minimum_confidence() == minimum_confidence
                    &&& w.bleaching_threshold() == bleaching_threshold
                    &&& w.is_cumulative() == is_cumulative
                    &&& w.class_count() == 0
                    &&& w.mapping().to_multiset() == identity_mapping(
                        retina_size as nat,
                    ).to_multiset()
                    &&& (!randomize_positions ==> w.mapping() == identity_mapping(
                        retina_size as nat,
                    ))
                },
                Err(e) => {
                    ||| {
                        &&& e == ConfigurationError::NumBitsOutOfRange
                        &&& !(1 <= ram_num_bits <= 62)
                    }
                    ||| {
                        &&& e == ConfigurationError::ConfidenceOutOfRange
                        &&& 1 <= ram_num_bits <= 62
                        &&& !minimum_confidence.is_proper()
                    }
                },
            },
    {
        if ram_num_bits < 1 || ram_num_bits > 62 {
            return Err(ConfigurationError::NumBitsOutOfRange);
        }
        if minimum_confidence.den < 1 || minimum_confidence.num > minimum_confidence.den {
            return Err(ConfigurationError::ConfidenceOutOfRange);
        }
        let mut ram_address_mapping: Vec<usize> = Vec::new();
        let mut i: usize = 0;
        while i < retina_size
            invariant
                i <= retina_size,
                ram_address_mapping@ == identity_mapping(i as nat),
            decreases retina_size - i,
        {
            ram_address_mapping.push(i);
            proof {
                assert(ram_address_mapping@ =~= identity_mapping((i + 1) as nat));
            }
            i = i + 1;
        }
        if randomize_positions {
            shuffle_indices(&mut ram_address_mapping);
        }
        proof {
            lemma_identity_rearrangement_bounds(ram_address_mapping@, retina_size as nat);
        }
        Ok(
            Wisard {
                retina_size,
                ram_num_bits,
                use_bleaching,
                minimum_confidence,
                bleaching_threshold,
                is_cumulative,
                discriminators: Vec::new(),
                ram_address_mapping,
            },
        )
    }

    /// The position of a label's discriminator, if the label has one.
    fn find_label(&self, class_name: &String) -> (result: Option<usize>)
        ensures
            match result {
                Some(i) => i < self.class_count() && self.labels()[i as int] == class_name@,
                None => !self.has_label(class_name@),
            },
    {
        let mut i: usize = 0;
        while i < self.discriminators.len()
            invariant
                i <= self.discriminators@.len(),
                forall|j: int| 0 <= j < i ==> self.labels()[j] != class_name@,
            decreases self.discriminators@.len() - i,
        {
            if self.discriminators[i].0 == *class_name {
                return Some(i);
            }
            i = i + 1;
        }
        None
    }

    /// Trains the label's discriminator on the retina, creating the
    /// discriminator first if the label was never trained.
    pub fn train(&mut self, class_name: String, retina: &Vec<bool>) -> (result: Result<
        (),
        ConfigurationError,
    >)
        requires
            old(self).wf(),
        ensures
            final(self).wf(),
            Wisard::same_settings(*old(self), *final(self)),
            match result {
                Ok(()) => {
                    &&& retina@.len() == old(self).retina_size()
                    &&& if old(self).has_label(class_name@) {
                        Wisard::trained_existing(*old(self), *final(self), class_name@, retina@)
                    } else {
                        Wisard::trained_new(*old(self), *final(self), class_name@, retina@)
                    }
                },
                Err(e) => {
                    &&& e == ConfigurationError::RetinaLengthMismatch
                    &&& retina@.len() != old(self).retina_size()
                    &&& *final(self) == *old(self)
                },
            },
    {
        if retina.len() != self.retina_size {
            return Err(ConfigurationError::RetinaLengthMismatch);
        }
        let found = self.find_label(&class_name);
        match found {
            Some(i) => {
                proof {
                    assert(self.disc(i as int).wf());
                }
                let train_result = self.discriminators[i].1.train(retina);
                match train_result {
                    Ok(()) => (),
                    Err(_) => {
                        proof {
                            assert(false);
                        }
                    },
                }
                proof {
                    assert(self.labels() =~= old(self).labels());
                    assert(old(self).label_index(class_name@) == i as int);
                    assert forall|j: int| 0 <= j < self.class_count() implies {
                        &&& (#[trigger] self.disc(j)).wf()
                        &&& self.disc(j).retina_size() == self.retina_size
                        &&& self.disc(j).ram_num_bits() == self.ram_num_bits
                        &&& self.disc(j).is_cumulative() == self.is_cumulative
                        &&& self.disc(j).mapping() == self.ram_address_mapping@
                    } by {
                        if j != i as int {
                            assert(self.disc(j) == old(self).disc(j));
                            assert(old(self).disc(j).wf());
                        } else {
                            assert(old(self).disc(j).wf());
                        }
                    }
                }
            },
            None => {
                let mapping_copy = copy_indices(&self.ram_address_mapping);
                let created = Discriminator::new(
                    self.retina_size,
                    self.ram_num_bits,
                    mapping_copy,
                    self.is_cumulative,
                );
                match created {
                    Ok(mut fresh) => {
                        let train_result = fresh.train(retina);
                        match train_result {
                            Ok(()) => (),
                            Err(_) => {
                                proof {
                                    assert(false);
                                }
                            },
                        }
                        self.discriminators.push((class_name, fresh));
                        proof {
                            assert(self.labels() =~= old(self).labels().push(class_name@));
                            assert forall|j: int| 0 <= j < self.class_count() implies {
                                &&& (#[trigger] self.disc(j)).wf()
                                &&& self.disc(j).retina_size() == self.retina_size
                                &&& self.disc(j).ram_num_bits() == self.ram_num_bits
                                &&& self.disc(j).is_cumulative() == self.is_cumulative
                                &&& self.disc(j).mapping() == self.ram_address_mapping@
                            } by {
                                if j < old(self).class_count() {
                                    assert(self.disc(j) == old(self).disc(j));
                                    assert(old(self).disc(j).wf());
                                }
                            }
                        }
                    },
                    Err(_) => {
                        proof {
                            assert(false);
                        }
                    },
                }
            },
        }
        Ok(())
    }

    /// How many RAMs each discriminator owns: the common denominator of
    /// every class probability.
    pub open spec fn rams_count(self) -> nat {
        spec_rams_count(self.retina_size() as nat, self.ram_num_bits() as nat)
    }

    /// The RAM responses of the `i`-th class for a retina; every class
    /// answers over the same `rams_count()` RAMs.
    pub open spec fn spec_responses(self, retina: Seq<bool>, i: int) -> Seq<u64> {
        Seq::new(self.rams_count(), |c: int| self.disc(i).response(retina, c))
    }

    /// Every class's RAM responses for a retina, in class order.
    pub open spec fn spec_all_responses(self, retina: Seq<bool>) -> Seq<Seq<u64>> {
        Seq::new(self.class_count() as nat, |i: int| self.spec_responses(retina, i))
    }

    /// Each class's vote count for a retina, after the bleaching search
    /// when bleaching is enabled: the numerator of its probability over
    /// `rams_count()`.
    pub open spec fn spec_final_votes(self, retina: Seq<bool>) -> Seq<u64> {
        let responses = self.spec_all_responses(retina);
        let raw = votes_at_threshold(responses, 0);
        if self.use_bleaching() {
            spec_bleach(raw, responses, raw, self.bleaching_threshold(), self.minimum_confidence())
        } else {
            raw
        }
    }

    /// The decision is withheld when the final votes' confidence falls
    /// below the configured minimum.
    pub open spec fn spec_decision_withheld(self, retina: Seq<bool>) -> bool {
        confidence_below(self.spec_final_votes(retina), self.minimum_confidence())
    }

    /// The label the classifier answers: the sentinel when the decision is
    /// withheld, the empty string when no class has a single vote, and the
    /// leading class's label otherwise.
    pub open spec fn spec_decision_label(self, retina: Seq<bool>) -> Seq<char> {
        let stats = conf_stats(self.spec_final_votes(retina));
        if self.spec_decision_withheld(retina) {
            "Not enough confidence to decide"@
        } else if stats.0 == -1 {
            Seq::<char>::empty()
        } else {
            self.labels()[stats.0]
        }
    }

    /// The probability the classifier answers beside the label: the
    /// leading class's votes over the RAM count, or zero when the decision
    /// is withheld.
    pub open spec fn spec_decision_probability(self, retina: Seq<bool>) -> Ratio {
        let stats = conf_stats(self.spec_final_votes(retina));
        if self.spec_decision_withheld(retina) {
            Ratio { num: 0u64, den: 1u64 }
        } else {
            Ratio { num: stats.1, den: self.rams_count() as u64 }
        }
    }

    /// The confidence the classifier answers: `(max - second) / max` over
    /// the final votes, or zero when the maximum is zero or the decision is
    /// withheld.
    pub open spec fn spec_decision_confidence(self, retina: Seq<bool>) -> Ratio {
        let stats = conf_stats(self.spec_final_votes(retina));
        if self.spec_decision_withheld(retina) || stats.1 == 0 {
            Ratio { num: 0u64, den: 1u64 }
        } else {
            Ratio { num: (stats.1 - stats.2) as u64, den: stats.1 }
        }
    }

    /// Each trained class's label beside its vote count for the retina:
    /// the count of its RAM responses above zero, refiltered by the
    /// bleaching search when bleaching is enabled. The probability of a
    /// class is its count over `rams_count()`.
    pub fn classification_probabilities(&self, retina: &Vec<bool>) -> (result: Result<
        Vec<(String, u64)>,
        ConfigurationError,
    >)
        requires
            self.wf(),
        ensures
            match result {
                Ok(probabilities) => {
                    &&& retina@.len() == self.retina_size()
                    &&& probabilities@.len() == self.class_count()
                    &&& self.spec_final_votes(retina@).len() == probabilities@.len()
                    &&& forall|i: int|
                        0 <= i < probabilities@.len() ==> (#[trigger] probabilities@[i].0)@
                            == self.labels()[i]
                    &&& forall|i: int|
                        0 <= i < probabilities@.len() ==> (#[trigger] probabilities@[i].1)
                            == self.spec_final_votes(retina@)[i]
                },
                Err(e) => {
                    &&& e == ConfigurationError::RetinaLengthMismatch
                    &&& retina@.len() != self.retina_size()
                },
            },
    {
        if retina.len() != self.retina_size {
            return Err(ConfigurationError::RetinaLengthMismatch);
        }
        let ghost all_responses = self.spec_all_responses(retina@);
        let class_count = self.discriminators.len();
        let mut responses: Vec<Vec<u64>> = Vec::new();
        let mut raw: Vec<u64> = Vec::new();
        let mut i: usize = 0;
        while i < class_count
            invariant
                i <= class_count,
                class_count == self.class_count(),
                self.wf(),
                retina@.len() == self.retina_size(),
                all_responses == self.spec_all_responses(retina@),
                responses@.len() == i,
                raw@.len() == i,
                forall|k: int| 0 <= k < i ==> #[trigger] responses@[k]@ == all_responses[k],
                forall|k: int|
                    0 <= k < i ==> #[trigger] raw@[k] == (votes_above(all_responses[k], 0) as u64),
            decreases class_count - i,
        {
            proof {
                assert(self.disc(i as int).wf());
            }
            let class_responses = match self.discriminators[i].1.classify(retina) {
                Ok(votes) => votes,
                Err(_) => {
                    proof {
                        assert(false);
                    }
                    Vec::new()
                },
            };
            proof {
                self.disc(i as int).lemma_shape();
                assert(class_responses@ =~= all_responses[i as int]);
                lemma_votes_above_le_len(all_responses[i as int], 0);
            }
            let count = count_votes_above(&class_responses, 0);
            responses.push(class_responses);
            raw.push(count as u64);
            i = i + 1;
        }
        proof {
            assert(responses.deep_view() =~~= all_responses);
            assert(raw@ =~= votes_at_threshold(all_responses, 0));
        }
        let final_votes: Vec<u64> = if self.use_bleaching {
            let start = copy_votes(&raw);
            bleach_from(&raw, &responses, start, self.bleaching_threshold, &self.minimum_confidence)
        } else {
            copy_votes(&raw)
        };
        proof {
            if self.use_bleaching {
                lemma_spec_bleach_len(
                    raw@,
                    all_responses,
                    raw@,
                    self.bleaching_threshold,
                    self.minimum_confidence,
                );
            }
        }
        let mut probabilities: Vec<(String, u64)> = Vec::new();
        let mut j: usize = 0;
        while j < class_count
            invariant
                j <= class_count,
                class_count == self.class_count(),
                final_votes@.len() == class_count,
                final_votes@ == self.spec_final_votes(retina@),
                probabilities@.len() == j,
                forall|k: int|
                    0 <= k < j ==> (#[trigger] probabilities@[k].0)@ == self.labels()[k],
                forall|k: int|
                    0 <= k < j ==> (#[trigger] probabilities@[k].1) == self.spec_final_votes(
                        retina@,
                    )[k],
            decreases class_count - j,
        {
            let label = self.discriminators[j].0.clone();
            probabilities.push((label, final_votes[j]));
            j = j + 1;
        }
        Ok(probabilities)
    }

    /// The confidence of the decision, with the leading label and its
    /// probability. When the confidence falls below the configured
    /// minimum, the answer is withheld: the sentinel label with zero
    /// confidence and zero probability.
    pub fn classification_confidence_and_probability(&self, retina: &Vec<bool>) -> (result: Result<
        (Ratio, (String, Ratio)),
        ConfigurationError,
    >)
        requires
            self.wf(),
        ensures
            match result {
                Ok(answer) => {
                    &&& retina@.len() == self.retina_size()
                    &&& answer.0 == self.spec_decision_confidence(retina@)
                    &&& answer.1.0@ == self.spec_decision_label(retina@)
                    &&& answer.1.1 == self.spec_decision_probability(retina@)
                },
                Err(e) => {
                    &&& e == ConfigurationError::RetinaLengthMismatch
                    &&& retina@.len() != self.retina_size()
                },
            },
    {
        let probabilities = match self.classification_probabilities(retina) {
            Ok(probabilities) => probabilities,
            Err(e) => {
                return Err(e);
            },
        };
        let mut votes: Vec<u64> = Vec::new();
        let mut i: usize = 0;
        while i < probabilities.len()
            invariant
                i <= probabilities@.len(),
                votes@.len() == i,
                forall|k: int| 0 <= k < i ==> #[trigger] votes@[k] == probabilities@[k].1,
            decreases probabilities@.len() - i,
        {
            let vote = probabilities[i].1;
            votes.push(vote);
            i = i + 1;
        }
        proof {
            assert(votes@ =~= self.spec_final_votes(retina@));
        }
        let stats = calculate_confidence_stats(&votes);
        let below = is_confidence_below(stats.1, stats.2, &self.minimum_confidence);
        if below {
            return Ok(
                (
                    Ratio::zero(),
                    ("Not enough confidence to decide".to_owned(), Ratio::zero()),
                ),
            );
        }
        proof {
            crate::discriminator::lemma_rams_count_le_retina(
                self.retina_size as nat,
                self.ram_num_bits as nat,
            );
        }
        let rams_count: usize = if self.retina_size % self.ram_num_bits == 0 {
            self.retina_size / self.ram_num_bits
        } else {
            self.retina_size / self.ram_num_bits + 1
        };
        let confidence = if stats.1 == 0 {
            Ratio::zero()
        } else {
            Ratio { num: stats.1 - stats.2, den: stats.1 }
        };
        let label: String = match stats.0 {
            Some(best) => self.discriminators[best].0.clone(),
            None => String::new(),
        };
        Ok((confidence, (label, Ratio { num: stats.1, den: rams_count as u64 })))
    }

    /// The label of the decision alone.
    pub fn classify(&self, retina: &Vec<bool>) -> (result: Result<String, ConfigurationError>)
        requires
            self.wf(),
        ensures
            match result {
                Ok(label) => {
                    &&& retina@.len() == self.retina_size()
                    &&& label@ == self.spec_decision_label(retina@)
                },
                Err(e) => {
                    &&& e == ConfigurationError::RetinaLengthMismatch
                    &&& retina@.len() != self.retina_size()
                },
            },
    {
        match self.classification_confidence_and_probability(retina) {
            Ok(answer) => Ok(answer.1.0),
            Err(e) => Err(e),
        }
    }

    /// The label of the decision with its probability.
    pub fn classification_and_probability(&self, retina: &Vec<bool>) -> (result: Result<
        (String, Ratio),
        ConfigurationError,
    >)
        requires
            self.wf(),
        ensures
            match result {
                Ok(answer) => {
                    &&& retina@.len() == self.retina_size()
                    &&& answer.0@ == self.spec_decision_label(retina@)
                    &&& answer.1 == self.spec_decision_probability(retina@)
                },
                Err(e) => {
                    &&& e == ConfigurationError::RetinaLengthMismatch
                    &&& retina@.len() != self.retina_size()
                },
            },
    {
        match self.classification_confidence_and_probability(retina) {
            Ok(answer) => Ok(answer.1),
            Err(e) => Err(e),
        }
    }

    /// Drops one training of the retina from the label's discriminator.
    /// Forgetting a label that was never trained changes nothing and is
    /// not an error.
    pub fn forget(&mut self, class_name: &str, retina: &Vec<bool>) -> (result: Result<
        (),
        ConfigurationError,
    >)
        requires
            old(self).wf(),
        ensures
            final(self).wf(),
            Wisard::same_settings(*old(self), *final(self)),
            match result {
                Ok(()) => {
                    if old(self).has_label(class_name@) {
                        &&& retina@.len() == old(self).retina_size()
                        &&& Wisard::forgot_existing(*old(self), *final(self), class_name@, retina@)
                    } else {
                        *final(self) == *old(self)
                    }
                },
                Err(e) => {
                    &&& e == ConfigurationError::RetinaLengthMismatch
                    &&& old(self).has_label(class_name@)
                    &&& retina@.len() != old(self).retina_size()
                    &&& *final(self) == *old(self)
                },
            },
    {
        let name: String = class_name.to_owned();
        let found = self.find_label(&name);
        match found {
            Some(i) => {
                if retina.len() != self.retina_size {
                    return Err(ConfigurationError::RetinaLengthMismatch);
                }
                proof {
                    assert(self.disc(i as int).wf());
                }
                let forget_result = self.discriminators[i].1.forget(retina);
                match forget_result {
                    Ok(()) => (),
                    Err(_) => {
                        proof {
                            assert(false);
                        }
                    },
                }
                proof {
                    assert(self.labels() =~= old(self).labels());
                    assert(old(self).label_index(class_name@) == i as int);
                    assert forall|j: int| 0 <= j < self.class_count() implies {
                        &&& (#[trigger] self.disc(j)).wf()
                        &&& self.disc(j).retina_size() == self.retina_size
                        &&& self.disc(j).ram_num_bits() == self.ram_num_bits
                        &&& self.disc(j).is_cumulative() == self.is_cumulative
                        &&& self.disc(j).mapping() == self.ram_address_mapping@
                    } by {
                        if j != i as int {
                            assert(self.disc(j) == old(self).disc(j));
                            assert(old(self).disc(j).wf());
                        } else {
                            assert(old(self).disc(j).wf());
                        }
                    }
                }
                Ok(())
            },
            None => Ok(()),
        }
    }
}

/// Law: training a known label on a retina and then forgetting the same
/// label and retina restores every RAM counter of every discriminator, and
/// leaves the label set unchanged. In cumulative mode this holds whenever
/// no counter of that label's discriminator is saturated; in
/// non-cumulative mode it holds when the addressed cells were unset before
/// the training.
pub proof fn lemma_wisard_train_forget_round_trip(
    pre: Wisard,
    mid: Wisard,
    post: Wisard,
    name: Seq<char>,
    retina: Seq<bool>,
)
    requires
        pre.wf(),
        pre.has_label(name),
        Wisard::trained_existing(pre, mid, name, retina),
        Wisard::forgot_existing(mid, post, name, retina),
        pre.is_cumulative() ==> forall|c: int, a: u64|
            0 <= c < pre.disc(pre.label_index(name)).rams_count()
                ==> #[trigger] pre.disc(pre.label_index(name)).count(c, a) < u64::MAX,
        !pre.is_cumulative() ==> forall|c: int|
            0 <= c < pre.disc(pre.label_index(name)).rams_count()
                ==> #[trigger] pre.disc(pre.label_index(name)).response(retina, c) == 0,
    ensures
        post.labels() == pre.labels(),
        forall|j: int, c: int, a: u64|
            0 <= j < pre.class_count() && 0 <= c < pre.disc(j).rams_count()
                ==> #[trigger] post.disc(j).count(c, a) == pre.disc(j).count(c, a),
{
    let i = pre.label_index(name);
    let k = mid.label_index(name);
    assert(0 <= i < pre.class_count() && pre.labels()[i] == name);
    assert(0 <= k < mid.class_count() && mid.labels()[k] == name);
    assert(k == i);
    crate::discriminator::lemma_train_forget_round_trip(
        pre.disc(i),
        mid.disc(i),
        post.disc(i),
        retina,
    );
    assert forall|j: int, c: int, a: u64|
        0 <= j < pre.class_count() && 0 <= c < pre.disc(j).rams_count()
            implies #[trigger] post.disc(j).count(c, a) == pre.disc(j).count(c, a) by {
        if j != i {
            assert(post.disc(j) == mid.disc(j));
            assert(mid.disc(j) == pre.disc(j));
        }
    }
}

/// Law: training a never-seen label and then forgetting the same label and
/// retina leaves the new discriminator's counters all zero — though the
/// (now empty) discriminator entry itself remains — and touches no other
/// discriminator.
pub proof fn lemma_wisard_train_new_forget_round_trip(
    pre: Wisard,
    mid: Wisard,
    post: Wisard,
    name: Seq<char>,
    retina: Seq<bool>,
)
    requires
        pre.wf(),
        !pre.has_label(name),
        Wisard::trained_new(pre, mid, name, retina),
        Wisard::forgot_existing(mid, post, name, retina),
    ensures
        post.labels() == pre.labels().push(name),
        forall|c: int, a: u64|
            0 <= c < mid.disc(pre.class_count()).rams_count()
                ==> #[trigger] post.disc(pre.class_count()).count(c, a) == 0,
        forall|j: int| 0 <= j < pre.class_count() ==> post.disc(j) == pre.disc(j),
{
    let n = pre.class_count();
    let k = mid.label_index(name);
    assert(mid.labels()[n] == name);
    assert(0 <= k < mid.class_count() && mid.labels()[k] == name);
    if k < n {
        assert(pre.labels()[k] == name);
        assert(pre.has_label(name));
    }
    assert(k == n);
    let fresh = mid.disc(n);
    assert forall|c: int, a: u64|
        0 <= c < fresh.rams_count() implies #[trigger] post.disc(n).count(c, a) == 0 by {
        assert(fresh.count(c, a) == (if a as nat == fresh.spec_address(retina, c) {
            1u64
        } else {
            0u64
        }));
    }
}

} // verus!

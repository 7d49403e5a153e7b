//! How hard it is for a label to be good.

use vstd::arithmetic::div_mod::{
    lemma_div_is_ordered, lemma_div_is_ordered_by_denominator, lemma_fundamental_div_mod,
};
use vstd::prelude::*;

verus! {

/// Why there is no difficulty.
#[derive(Debug, Clone, Copy, PartialEq, Eq)]
pub enum DifficultyError {
    /// There are no labels.
    NoLabels,
    /// There are fewer labels than are expected to be good.
    TooFewLabels { k1: u32, num_labels: u64 },
}

/// The threshold below which, out of `num_labels` random labels, `k1` are expected to fall.
pub open spec fn threshold(k1: nat, num_labels: nat) -> nat {
    k1 * u64::MAX as nat / num_labels
}

/// What stands against expecting `k1` good labels out of `num_labels`.
pub open spec fn objection(k1: u32, num_labels: u64) -> Option<DifficultyError> {
    if num_labels == 0 {
        Some(DifficultyError::NoLabels)
    } else if k1 > num_labels {
        Some(DifficultyError::TooFewLabels { k1, num_labels })
    } else {
        None
    }
}

/// The threshold below which `k1` out of `num_labels` labels are expected to fall.
pub fn proving_difficulty(k1: u32, num_labels: u64) -> (difficulty: Result<u64, DifficultyError>)
    ensures
        match objection(k1, num_labels) {
            Some(error) => difficulty == Err::<u64, DifficultyError>(error),
            None => difficulty is Ok && difficulty->Ok_0 == threshold(
                k1 as nat,
                num_labels as nat,
            ),
        },
        difficulty is Ok <==> num_labels > 0 && k1 <= num_labels,
        difficulty matches Ok(d) ==> d * num_labels <= k1 * u64::MAX < (d + 1) * num_labels,
        num_labels == 0 ==> difficulty == Err::<u64, DifficultyError>(DifficultyError::NoLabels),
        0 < num_labels < k1 ==> difficulty == Err::<u64, DifficultyError>(
            DifficultyError::TooFewLabels { k1, num_labels },
        ),
{
    if num_labels == 0 {
        return Err(DifficultyError::NoLabels);
    }
    if k1 as u64 > num_labels {
        return Err(DifficultyError::TooFewLabels { k1, num_labels });
    }
    assert(k1 * u64::MAX <= u128::MAX);
    assert(k1 * u64::MAX / num_labels as int <= u64::MAX) by (nonlinear_arith)
        requires
            0 <= k1 <= num_labels,
            num_labels > 0,
    ;
    proof {
        threshold_is_the_rounded_quotient(k1 as nat, num_labels as nat);
    }
    Ok((k1 as u128 * u64::MAX as u128 / num_labels as u128) as u64)
}

/// The threshold stands to the largest number as `k1` stands to the labels, rounded down.
pub proof fn threshold_is_the_rounded_quotient(k1: nat, num_labels: nat)
    requires
        num_labels > 0,
    ensures
        threshold(k1, num_labels) * num_labels <= k1 * u64::MAX < (threshold(k1, num_labels) + 1)
            * num_labels,
{
    let whole = k1 * u64::MAX as int;
    let quotient = whole / num_labels as int;
    lemma_fundamental_div_mod(whole, num_labels as int);
    assert(num_labels * quotient == quotient * num_labels && (quotient + 1) * num_labels == quotient
        * num_labels + num_labels) by (nonlinear_arith);
}

/// There is no difficulty exactly where there are no labels, or fewer than are expected to be good.
pub proof fn too_few_labels_are_objected_to(k1: u32, num_labels: u64)
    ensures
        num_labels == 0 ==> objection(k1, num_labels) == Some(DifficultyError::NoLabels),
        0 < num_labels < k1 ==> objection(k1, num_labels) == Some(
            DifficultyError::TooFewLabels { k1, num_labels },
        ),
        num_labels > 0 && k1 <= num_labels ==> objection(k1, num_labels) is None,
{
}

/// Expecting more good labels never makes it harder for a label to be good, and storing more
/// labels never makes it easier.
pub proof fn threshold_is_monotone(k1: nat, more: nat, num_labels: nat, fewer_labels: nat)
    requires
        k1 <= more,
        0 < fewer_labels <= num_labels,
    ensures
        threshold(k1, num_labels) <= threshold(more, num_labels),
        threshold(k1, num_labels) <= threshold(k1, fewer_labels),
{
    let max = u64::MAX as int;
    assert(k1 * max <= more * max) by (nonlinear_arith)
        requires
            0 <= k1 <= more,
            max >= 0,
    ;
    assert(0 <= k1 * max) by (nonlinear_arith)
        requires
            0 <= k1,
            max >= 0,
    ;
    lemma_div_is_ordered(k1 * max, more * max, num_labels as int);
    lemma_div_is_ordered_by_denominator(k1 * max, fewer_labels as int, num_labels as int);
}

} // verus!

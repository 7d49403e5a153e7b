//! What a proof has to meet: the difficulties that follow from how much space is claimed.

use primitive_types::U256;
use vstd::arithmetic::div_mod::{
    lemma_div_decreases, lemma_div_is_ordered_by_denominator, lemma_fundamental_div_mod,
};
use vstd::prelude::*;

use crate::bytes::{be_value, lemma_be_value_injective};
use crate::config::ProofConfig;
use crate::difficulty::{objection, proving_difficulty, threshold, DifficultyError};
use crate::metadata::PostMetadata;

verus! {

/// The thresholds of a proof.
#[derive(Debug, Clone, Copy)]
pub struct ProvingParams {
    /// A label is good where it is below this.
    pub difficulty: u64,
    /// A hash is a proof of work where it is below this, most significant byte first.
    pub pow_difficulty: [u8; 32],
}

/// Divides a 256-bit number: `U256::from_big_endian`, the `/` of `U256` and a `u32`, and
/// `U256::to_big_endian` of `primitive_types`. Trusted: the quotient is rounded down, and both
/// numbers are spelled most significant byte first.
#[verifier::external_body]
fn divide_big_endian(number: &[u8; 32], divisor: u32) -> (quotient: [u8; 32])
    requires
        divisor > 0,
    ensures
        be_value(quotient@) == be_value(number@) / divisor as nat,
{
    let mut quotient = [0u8; 32];
    (U256::from_big_endian(number) / divisor).to_big_endian(&mut quotient);
    quotient
}

impl ProvingParams {
    /// The thresholds for the stored labels. The one for the proof of work is shared out among the
    /// units of space.
    pub fn new(metadata: &PostMetadata, cfg: &ProofConfig) -> (params: Result<
        Self,
        DifficultyError,
    >)
        requires
            metadata.num_units > 0,
            metadata.label_count() <= u64::MAX,
        ensures
            match objection(cfg.k1, metadata.label_count() as u64) {
                Some(error) => params == Err::<Self, DifficultyError>(error),
                None => {
                    &&& params is Ok
                    &&& params->Ok_0.difficulty == threshold(
                        cfg.k1 as nat,
                        metadata.label_count(),
                    )
                    &&& be_value(params->Ok_0.pow_difficulty@) == be_value(cfg.pow_difficulty@)
                        / metadata.num_units as nat
                },
            },
            params is Ok <==> {
                &&& metadata.num_units * metadata.labels_per_unit > 0
                &&& cfg.k1 <= metadata.num_units * metadata.labels_per_unit
            },
            params matches Ok(made) ==> {
                &&& made.difficulty * (metadata.num_units * metadata.labels_per_unit) <= cfg.k1
                    * u64::MAX
                &&& cfg.k1 * u64::MAX < (made.difficulty + 1) * (metadata.num_units
                    * metadata.labels_per_unit)
                &&& be_value(made.pow_difficulty@) * metadata.num_units <= be_value(
                    cfg.pow_difficulty@,
                )
                &&& be_value(cfg.pow_difficulty@) < (be_value(made.pow_difficulty@) + 1)
                    * metadata.num_units
            },
            metadata.num_units * metadata.labels_per_unit == 0 ==> params == Err::<
                Self,
                DifficultyError,
            >(DifficultyError::NoLabels),
            0 < metadata.num_units * metadata.labels_per_unit < cfg.k1 ==> params == Err::<
                Self,
                DifficultyError,
            >(
                DifficultyError::TooFewLabels {
                    k1: cfg.k1,
                    num_labels: (metadata.num_units * metadata.labels_per_unit) as u64,
                },
            ),
    {
        let num_labels: u64 = metadata.num_labels();
        let pow_difficulty = divide_big_endian(&cfg.pow_difficulty, metadata.num_units);
        proof {
            let full = be_value(cfg.pow_difficulty@) as int;
            let units = metadata.num_units as int;
            let quotient = full / units;
            lemma_fundamental_div_mod(full, units);
            assert(units * quotient == quotient * units && (quotient + 1) * units == quotient
                * units + units) by (nonlinear_arith);
        }
        match proving_difficulty(cfg.k1, num_labels) {
            Ok(difficulty) => Ok(ProvingParams { difficulty, pow_difficulty }),
            Err(error) => Err(error),
        }
    }
}

/// The threshold for the proof of work is the whole one for a single unit of space, and never
/// larger for more units. It is strictly smaller than the whole one for two units and more, unless
/// the whole one is zero already.
pub proof fn pow_threshold_scales_with_units(
    whole: [u8; 32],
    scaled: [u8; 32],
    units: u32,
    scaled_further: [u8; 32],
    more_units: u32,
)
    requires
        0 < units <= more_units,
        be_value(scaled@) == be_value(whole@) / units as nat,
        be_value(scaled_further@) == be_value(whole@) / more_units as nat,
    ensures
        units == 1 ==> scaled@ == whole@,
        units >= 2 && be_value(whole@) > 0 ==> be_value(scaled@) < be_value(whole@),
        be_value(scaled_further@) <= be_value(scaled@),
        be_value(scaled@) * units <= be_value(whole@) < (be_value(scaled@) + 1) * units,
{
    let full = be_value(whole@) as int;
    if units == 1 {
        assert(full / 1 == full);
        lemma_be_value_injective(scaled@, whole@);
    } else if full > 0 {
        lemma_div_decreases(full, units as int);
    }
    lemma_div_is_ordered_by_denominator(full, units as int, more_units as int);
    lemma_fundamental_div_mod(full, units as int);
    let quotient = full / units as int;
    assert(units * quotient == quotient * units && (quotient + 1) * units == quotient * units
        + units) by (nonlinear_arith);
}

} // verus!

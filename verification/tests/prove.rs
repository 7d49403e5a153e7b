use std::cell::Cell;
use std::collections::HashMap;
use std::iter::repeat;

use post_prove::compression::decompress_indexes;
use post_prove::config::ProofConfig;
use post_prove::difficulty::proving_difficulty;
use post_prove::metadata::PostMetadata;
use post_prove::nonce::{calc_nonce_group, nonce_group_range};
use post_prove::params::ProvingParams;
use post_prove::pow;
use post_prove::prove::Proof;
use post_prove::prover::{Prover, Prover8_56, ProverError};
use rand::{thread_rng, RngCore};

const LABEL_SIZE: usize = 16;

/// Answers every request with the same outcome.
struct FixedPow(Result<u64, pow::Error>);

impl pow::Prover for FixedPow {
    fn prove(
        &self,
        _nonce_group: u8,
        _challenge: &[u8; 8],
        _difficulty: &[u8; 32],
        _miner_id: &[u8; 32],
    ) -> Result<u64, pow::Error> {
        self.0.clone()
    }
}

/// Expects a single request.
struct ExpectedPow {
    nonce_group: u8,
    challenge: [u8; 8],
    difficulty: [u8; 32],
    calls: Cell<u32>,
}

impl pow::Prover for ExpectedPow {
    fn prove(
        &self,
        nonce_group: u8,
        challenge: &[u8; 8],
        difficulty: &[u8; 32],
        _miner_id: &[u8; 32],
    ) -> Result<u64, pow::Error> {
        assert_eq!(self.nonce_group, nonce_group);
        assert_eq!(&self.challenge, challenge);
        assert_eq!(&self.difficulty, difficulty);
        self.calls.set(self.calls.get() + 1);
        assert_eq!(1, self.calls.get());
        Ok(0)
    }
}

/// Answers a single request.
struct OncePow {
    outcome: Result<u64, pow::Error>,
    calls: Cell<u32>,
}

impl OncePow {
    fn new(outcome: Result<u64, pow::Error>) -> Self {
        Self {
            outcome,
            calls: Cell::new(0),
        }
    }
}

impl pow::Prover for OncePow {
    fn prove(
        &self,
        _nonce_group: u8,
        _challenge: &[u8; 8],
        _difficulty: &[u8; 32],
        _miner_id: &[u8; 32],
    ) -> Result<u64, pow::Error> {
        self.calls.set(self.calls.get() + 1);
        assert_eq!(1, self.calls.get());
        self.outcome.clone()
    }
}

#[test]
fn creating_proof() {
    let indices = vec![0, 1, 2, 3, 4, 5, 6, 7, 8];
    let keep_bits = 4;
    let proof = Proof::new(7, &indices, 9, 77);
    assert_eq!(7, proof.nonce);
    assert_eq!(77, proof.pow);
    assert_eq!(
        indices,
        decompress_indexes(&proof.indices, keep_bits)
            .into_iter()
            .take(indices.len())
            .collect::<Vec<_>>()
    );
}

#[test]
fn creating_prover() {
    let meta = PostMetadata {
        labels_per_unit: 1000,
        num_units: 1,
        max_file_size: 1024,
        ..Default::default()
    };
    let cfg = ProofConfig {
        k1: 279,
        k2: 300,
        k3: 65,
        pow_difficulty: [0xFF; 32],
    };
    let params = ProvingParams::new(&meta, &cfg).unwrap();

    let pow_prover = ExpectedPow {
        nonce_group: 0,
        challenge: [0; 8],
        difficulty: cfg.pow_difficulty,
        calls: Cell::new(0),
    };
    assert!(Prover8_56::new(&[0; 32], 0..16, params, &pow_prover, &meta.node_id).is_ok());
    assert_eq!(1, pow_prover.calls.get());

    let pow_prover = ExpectedPow {
        nonce_group: 1,
        challenge: [0; 8],
        difficulty: cfg.pow_difficulty,
        calls: Cell::new(0),
    };
    assert!(Prover8_56::new(&[0; 32], 16..32, params, &pow_prover, &meta.node_id).is_ok());
    assert_eq!(1, pow_prover.calls.get());

    assert!(Prover8_56::new(&[0; 32], 0..0, params, &pow_prover, &meta.node_id).is_err());
    assert!(Prover8_56::new(&[0; 32], 1..16, params, &pow_prover, &meta.node_id).is_err());
}

#[test]
fn creating_prover_fails_pow() {
    let meta = PostMetadata {
        labels_per_unit: 1000,
        num_units: 1,
        max_file_size: 1024,
        ..Default::default()
    };
    let cfg = ProofConfig {
        k1: 279,
        k2: 300,
        k3: 65,
        pow_difficulty: [0xFF; 32],
    };
    let pow_prover = OncePow::new(Err(pow::Error::PoWNotFound));
    let params = ProvingParams::new(&meta, &cfg).unwrap();
    assert!(Prover8_56::new(&[0; 32], 0..16, params, &pow_prover, &meta.node_id).is_err());
    assert_eq!(1, pow_prover.calls.get());
}

/// Test that PoW threshold is scaled with num_units.
#[test]
fn scaling_pows_thresholds() {
    let cfg = ProofConfig {
        k1: 32,
        k2: 32,
        k3: 10,
        pow_difficulty: [0x0F; 32],
    };
    let metadata = PostMetadata {
        num_units: 1,
        labels_per_unit: 100,
        max_file_size: 1,
        node_id: [0u8; 32],
        commitment_atx_id: [0u8; 32],
        nonce: None,
        last_position: None,
    };
    {
        let params = ProvingParams::new(&metadata, &cfg).unwrap();
        assert_eq!(params.pow_difficulty, cfg.pow_difficulty);
    }
    {
        let params = ProvingParams::new(
            &PostMetadata {
                num_units: 10,
                ..metadata
            },
            &cfg,
        )
        .unwrap();
        assert!(params.pow_difficulty < cfg.pow_difficulty);
    }
}

#[test]
fn sanity() {
    let (tx, rx) = std::sync::mpsc::channel();
    let challenge = b"hello world, challenge me!!!!!!!";
    let params = ProvingParams {
        difficulty: u64::MAX,
        pow_difficulty: [0xFF; 32],
    };
    let pow_prover = FixedPow(Ok(0));

    let prover = Prover8_56::new(
        challenge,
        0..Prover8_56::NONCES_PER_AES,
        params,
        &pow_prover,
        &[7; 32],
    )
    .unwrap();
    let res = prover.prove(&[0u8; 8 * LABEL_SIZE], 0, |nonce, index| {
        let _ = tx.send((nonce, index));
        None
    });
    assert!(res.is_none());
    drop(tx);
    let rst: Vec<(u32, u64)> = rx.into_iter().collect();
    assert_eq!(
        (0..8)
            .flat_map(move |x| (0..Prover8_56::NONCES_PER_AES).zip(std::iter::repeat(x)))
            .collect::<Vec<_>>(),
        rst,
    );
}

#[test]
/// Test if indicies in a proof are distributed more less uniformly across the whole input range.
fn indicies_distribution() {
    let challenge = b"hello world, challenge me!!!!!!!";

    const NUM_LABELS: usize = 1024 * 1024;
    const K1: u32 = 1000;
    const K2: usize = 1000;

    let mut data = vec![0u8; NUM_LABELS * LABEL_SIZE];
    thread_rng().fill_bytes(&mut data);

    let mut start_nonce = 0;
    let mut end_nonce = start_nonce + Prover8_56::NONCES_PER_AES;
    let params = ProvingParams {
        difficulty: proving_difficulty(K1, NUM_LABELS as u64).unwrap(),
        pow_difficulty: [0xFF; 32],
    };
    let pow_prover = FixedPow(Ok(0));

    let indexes = loop {
        let mut indicies = HashMap::<u32, Vec<u64>>::new();

        let prover = Prover8_56::new(
            challenge,
            start_nonce..end_nonce,
            params,
            &pow_prover,
            &[7; 32],
        )
        .unwrap();

        let result = prover.prove(&data, 0, |nonce, index| {
            let vec = indicies.entry(nonce).or_default();
            vec.push(index);

            if vec.len() >= K2 {
                return Some(std::mem::take(vec));
            }
            None
        });
        if let Some((_, indexes)) = result {
            break indexes;
        }
        (start_nonce, end_nonce) = (end_nonce, end_nonce + 20);
    };

    // verify distribution
    let buckets = 10;
    let expected = K2 / buckets;
    let bucket_id = |idx: u64| -> u64 { idx / (NUM_LABELS / LABEL_SIZE / buckets) as u64 };

    let buckets = indexes
        .into_iter()
        .fold(HashMap::<u64, usize>::new(), |mut buckets, idx| {
            *buckets.entry(bucket_id(idx)).or_default() += 1;
            buckets
        });

    for (id, occurences) in buckets {
        let deviation_from_expected =
            (occurences as isize - expected as isize) as f64 / expected as f64;
        // VERY rough check. The point is to make sure if indexes are not concentrated in any bucket.
        assert!(
            deviation_from_expected.abs() <= 1.0,
            "Too big deviation in proof indexes distribution in bucket {id}: {deviation_from_expected} ({occurences} indexes of {expected} expected)"
        );
    }
}

#[test]
fn proving_vector() {
    let challenge = b"hello world, CHALLENGE me!!!!!!!";

    let num_labels = 128;
    let k1 = 4;
    let k2 = 32;
    let params = ProvingParams {
        difficulty: proving_difficulty(k1, num_labels as u64).unwrap(),
        pow_difficulty: [0xFF; 32],
    };
    let pow_prover = OncePow::new(Ok(0));
    let data = repeat(0..=11) // it's important for range len to not be a multiple of AES block
        .flatten()
        .take(num_labels * LABEL_SIZE)
        .collect::<Vec<u8>>();

    let prover = Prover8_56::new(
        challenge,
        0..Prover8_56::NONCES_PER_AES,
        params,
        &pow_prover,
        &[7; 32],
    )
    .unwrap();
    assert_eq!(1, pow_prover.calls.get());

    let mut indexes = HashMap::<u32, Vec<u64>>::new();

    let (nonce, indexes) = prover
        .prove(&data, 0, |nonce, index| {
            let vec = indexes.entry(nonce).or_default();
            vec.push(index);
            if vec.len() >= k2 {
                return Some(std::mem::take(vec));
            }
            None
        })
        .unwrap();
    assert_eq!(3, nonce);

    assert_eq!(
        &[
            0, 3, 6, 9, 12, 15, 18, 21, 24, 27, 30, 33, 36, 39, 42, 45, 48, 51, 54, 57, 60, 63,
            66, 69, 72, 75, 78, 81, 84, 87, 90, 93
        ],
        indexes.as_slice()
    );
}

#[test]
fn calculating_nonce_group_range() {
    assert_eq!(0..1, nonce_group_range(0..1, 16));
    assert_eq!(0..1, nonce_group_range(0..4, 16));
    assert_eq!(0..1, nonce_group_range(0..16, 16));
    assert_eq!(0..2, nonce_group_range(0..17, 16));
    assert_eq!(0..2, nonce_group_range(0..18, 16));
    assert_eq!(0..2, nonce_group_range(0..32, 16));
    assert_eq!(0..2, nonce_group_range(1..17, 16));
    assert_eq!(0..2, nonce_group_range(15..17, 16));
    assert_eq!(1..2, nonce_group_range(16..17, 16));
    assert_eq!(1..3, nonce_group_range(30..48, 16));
    assert_eq!(2..3, nonce_group_range(47..48, 16));
}

#[test]
fn nonce_group_for_nonce() {
    assert_eq!(0, calc_nonce_group(0, 16));
    assert_eq!(0, calc_nonce_group(1, 16));
    assert_eq!(0, calc_nonce_group(15, 16));
    assert_eq!(1, calc_nonce_group(16, 16));
    assert_eq!(1, calc_nonce_group(17, 16));
    assert_eq!(1, calc_nonce_group(31, 16));
    assert_eq!(2, calc_nonce_group(32, 16));
}

#[test]
fn refused_windows_and_groups() {
    let params = ProvingParams {
        difficulty: u64::MAX,
        pow_difficulty: [0xFF; 32],
    };
    let make = |nonces, pow: FixedPow| {
        Prover8_56::new(&[3; 32], nonces, params, &pow, &[7; 32]).map(|_| ())
    };
    assert_eq!(Err(ProverError::NoncesStart), make(1..17, FixedPow(Ok(0))));
    assert_eq!(
        Err(ProverError::NoncesStart),
        make(u32::MAX..u32::MAX, FixedPow(Ok(0)))
    );
    assert_eq!(Err(ProverError::NoncesCount), make(16..16, FixedPow(Ok(0))));
    assert_eq!(Err(ProverError::NoncesCount), make(32..16, FixedPow(Ok(0))));
    assert_eq!(Err(ProverError::NoncesCount), make(0..20, FixedPow(Ok(0))));
    assert_eq!(Ok(()), make(4080..4096, FixedPow(Ok(0))));
    assert_eq!(
        Err(ProverError::NonceGroup(256)),
        make(4080..4112, FixedPow(Ok(0)))
    );
    assert_eq!(
        Err(ProverError::NonceGroup(300)),
        make(4800..4816, FixedPow(Ok(0)))
    );
    assert_eq!(
        Err(ProverError::Pow(pow::Error::PoWNotFound)),
        make(4080..4112, FixedPow(Err(pow::Error::PoWNotFound)))
    );
    assert_eq!(
        "nonces must start at a multiple of 16",
        ProverError::NoncesStart.message()
    );
    assert_eq!(
        "nonces must be a multiple of 16",
        ProverError::NoncesCount.message()
    );
}

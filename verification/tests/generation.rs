use std::borrow::Cow;

use post_prove::batches::place_batch;
use post_prove::compression::{compress_indices, decompress_indexes, required_bits};
use post_prove::config::ProofConfig;
use post_prove::difficulty::{proving_difficulty, DifficultyError};
use post_prove::hit_log::{HitLog, Mismatch};
use post_prove::metadata::PostMetadata;
use post_prove::params::ProvingParams;
use post_prove::prove::{blank_labels, label_bytes, Generation, PassEnd, Proof, Stopped};
use post_prove::prover::{Prover, Prover8_56};

fn metadata(num_units: u32, labels_per_unit: u64) -> PostMetadata {
    PostMetadata {
        num_units,
        labels_per_unit,
        ..Default::default()
    }
}

fn config(k1: u32) -> ProofConfig {
    ProofConfig {
        k1,
        k2: 37,
        k3: 37,
        pow_difficulty: [0xFF; 32],
    }
}

fn logged(k2: u32, hits: &[(u32, u64)]) -> HitLog {
    let mut log = HitLog::new(k2);
    for hit in hits {
        log.record(hit.0, hit.1);
    }
    log
}

#[test]
fn bits_of_a_value() {
    assert_eq!(0, required_bits(0));
    assert_eq!(1, required_bits(1));
    assert_eq!(2, required_bits(2));
    assert_eq!(2, required_bits(3));
    assert_eq!(4, required_bits(9));
    assert_eq!(8, required_bits(255));
    assert_eq!(9, required_bits(256));
    assert_eq!(64, required_bits(u64::MAX));
}

#[test]
fn packed_bytes() {
    // 001, 010 and 011, the first in the lowest bits.
    assert_eq!(vec![0b1101_0001, 0], compress_indices(&[1, 2, 3], 3));
    assert_eq!(vec![0x21, 0x03], compress_indices(&[1, 2, 3], 4));
    // Bits above the ones that are kept are lost.
    assert_eq!(vec![0x21], compress_indices(&[0xf1, 0x32], 4));
    assert_eq!(Vec::<u8>::new(), compress_indices(&[], 7));
    assert_eq!(Vec::<u8>::new(), compress_indices(&[1, 2], 0));
    assert_eq!(
        vec![8, 7, 6, 5, 4, 3, 2, 1],
        compress_indices(&[0x0102_0304_0506_0708], 64)
    );
}

#[test]
fn unpacked_indexes() {
    assert_eq!(vec![1, 2, 3, 0], decompress_indexes(&[0x21, 0x03], 4));
    assert_eq!(vec![1, 2, 3, 0, 0], decompress_indexes(&[0b1101_0001, 0], 3));
    assert_eq!(Vec::<u64>::new(), decompress_indexes(&[0xff], 9));
    assert_eq!(
        vec![0x0102_0304_0506_0708],
        decompress_indexes(&[8, 7, 6, 5, 4, 3, 2, 1], 64)
    );
}

#[test]
fn unpacking_gives_back_what_was_packed() {
    for bits in 1..=64 {
        let top = u64::MAX >> (64 - bits);
        let indexes = vec![top, 0, top / 3, 1, top, top / 2];
        let unpacked = decompress_indexes(&compress_indices(&indexes, bits), bits);
        assert_eq!(indexes, unpacked[..indexes.len()]);
    }
}

#[test]
fn proof_bytes() {
    let proof = Proof::new(7, &[1, 2, 3], 9, 77);
    assert_eq!(
        Proof {
            nonce: 7,
            indices: Cow::Borrowed(&[0x21, 0x03]),
            pow: 77
        },
        proof
    );
    assert_eq!(proof, proof.clone());
}

#[test]
fn difficulties() {
    assert_eq!(Ok(u64::MAX), proving_difficulty(5, 5));
    assert_eq!(Ok(u64::MAX / 3), proving_difficulty(1, 3));
    assert_eq!(Ok(0xbfff_ffff_ffff_ffff), proving_difficulty(3, 4));
    assert_eq!(Ok(0), proving_difficulty(0, 1));
    assert_eq!(Ok(1), proving_difficulty(1, u64::MAX));
    assert_eq!(Err(DifficultyError::NoLabels), proving_difficulty(0, 0));
    assert_eq!(Err(DifficultyError::NoLabels), proving_difficulty(1, 0));
    assert_eq!(
        Err(DifficultyError::TooFewLabels {
            k1: 6,
            num_labels: 5
        }),
        proving_difficulty(6, 5)
    );
}

#[test]
fn difficulty_is_monotone() {
    let difficulty = |k1, num_labels| proving_difficulty(k1, num_labels).unwrap();
    assert!(difficulty(3, 100) < difficulty(4, 100));
    assert!(difficulty(3, 101) < difficulty(3, 100));
}

#[test]
fn thresholds_of_stored_labels() {
    let mut pow_difficulty = [0u8; 32];
    pow_difficulty[30] = 0x03;
    pow_difficulty[31] = 0xe8;
    let cfg = ProofConfig {
        pow_difficulty,
        ..config(3)
    };
    let params = ProvingParams::new(&metadata(7, 100), &cfg).unwrap();
    let mut seventh = [0u8; 32];
    seventh[31] = 142;
    assert_eq!(seventh, params.pow_difficulty);
    assert_eq!(proving_difficulty(3, 700), Ok(params.difficulty));

    let params = ProvingParams::new(&metadata(2, 100), &config(3)).unwrap();
    let mut half = [0xFF; 32];
    half[0] = 0x7F;
    assert_eq!(half, params.pow_difficulty);
}

#[test]
fn refused_thresholds() {
    assert_eq!(
        DifficultyError::NoLabels,
        ProvingParams::new(&metadata(1, 0), &config(3)).unwrap_err()
    );
    assert_eq!(
        DifficultyError::TooFewLabels {
            k1: 21,
            num_labels: 20
        },
        ProvingParams::new(&metadata(2, 10), &config(21)).unwrap_err()
    );
}

#[test]
fn sizes_of_stored_labels() {
    assert_eq!(20, metadata(2, 10).num_labels());
    assert_eq!(Some(320), label_bytes(&metadata(2, 10)));
    assert_eq!(Some(0), label_bytes(&metadata(0, 10)));
    assert_eq!(None, label_bytes(&metadata(u32::MAX, u64::MAX)));
    assert_eq!(None, label_bytes(&metadata(1, usize::MAX as u64 / 16 + 1)));
    assert_eq!(
        Some(usize::MAX / 16 * 16),
        label_bytes(&metadata(1, usize::MAX as u64 / 16))
    );
}

#[test]
fn room_for_labels_is_blank() {
    assert_eq!(Some(vec![0; 320]), blank_labels(&metadata(2, 10)));
    assert_eq!(Some(vec![]), blank_labels(&metadata(0, 10)));
    assert_eq!(None, blank_labels(&metadata(u32::MAX, u64::MAX)));
}

#[test]
fn default_metadata_is_empty() {
    let metadata = PostMetadata::default();
    assert_eq!([0; 32], metadata.node_id);
    assert_eq!([0; 32], metadata.commitment_atx_id);
    assert_eq!(0, metadata.num_labels());
    assert_eq!(0, metadata.max_file_size);
    assert_eq!(None, metadata.nonce);
    assert_eq!(None, metadata.last_position);
}

#[test]
fn batches_are_put_together() {
    let mut labels = vec![0; 8];
    place_batch(&mut labels, 4, &[5, 6]);
    assert_eq!(vec![0, 0, 0, 0, 5, 6, 0, 0], labels);
    place_batch(&mut labels, 0, &[1, 2, 3]);
    place_batch(&mut labels, 8, &[]);
    place_batch(&mut labels, 7, &[8]);
    // What lies in no batch stays as it was.
    assert_eq!(vec![1, 2, 3, 0, 5, 6, 0, 8], labels);
    place_batch(&mut labels, 6, &[7]);
    place_batch(&mut labels, 3, &[4]);
    assert_eq!(vec![1, 2, 3, 4, 5, 6, 7, 8], labels);
}

#[test]
fn first_full_nonce_is_found() {
    let mut log = HitLog::new(2);
    assert_eq!(None, log.found());
    log.record(3, 10);
    log.record(4, 11);
    assert_eq!(None, log.found());
    log.record(4, 12);
    assert_eq!(Some((4, vec![11, 12])), log.found());
    log.record(3, 13);
    log.record(4, 14);
    assert_eq!(Some((4, vec![11, 12])), log.found());
}

#[test]
fn equal_lists_agree_in_any_order() {
    let hits = [(3, 10), (4, 11), (3, 12)];
    assert_eq!(Ok(()), logged(9, &hits).compare(&[(3, 12), (3, 10), (4, 11)]));
    assert_eq!(Ok(()), logged(9, &[]).compare(&[]));
    assert_eq!(
        Ok(()),
        logged(9, &[(1, 1), (1, 1)]).compare(&[(1, 1), (1, 1)])
    );
}

#[test]
fn differing_lists_are_told_apart() {
    let hits = [(3, 10), (4, 11), (3, 12)];
    assert_eq!(
        Err(Mismatch::NotLogged {
            nonce: 4,
            index: 10
        }),
        logged(9, &hits).compare(&[(3, 12), (4, 10), (9, 9)])
    );
    assert_eq!(
        Err(Mismatch::NotLogged {
            nonce: 3,
            index: 10
        }),
        logged(9, &hits).compare(&[(3, 10), (3, 10)])
    );
    assert_eq!(
        Err(Mismatch::OnlyLogged),
        logged(9, &hits).compare(&[(3, 10), (4, 11)])
    );
    assert_eq!(Err(Mismatch::OnlyLogged), logged(9, &hits).compare(&[]));
    assert_eq!(
        Err(Mismatch::OnlyLogged),
        logged(9, &[(1, 1), (1, 1)]).compare(&[(1, 1)])
    );
}

#[test]
fn windows_follow_each_other() {
    let prover = Prover8_56::from_pows(&[0; 32], 0..32, 1, &[5, 6]);
    let generation = Generation::new(32);
    assert_eq!(Ok(0..32), generation.next_pass(false));
    assert_eq!(Err(Stopped), generation.next_pass(true));
    let generation = match generation.finish_pass(&prover, HitLog::new(2), &[], 9) {
        Ok(PassEnd::Again(next)) => next,
        _ => panic!("another pass is due"),
    };
    assert_eq!(Ok(32..64), generation.next_pass(false));
    let generation = match generation.finish_pass(&prover, logged(2, &[(33, 1)]), &[(33, 1)], 9) {
        Ok(PassEnd::Again(next)) => next,
        _ => panic!("another pass is due"),
    };
    assert_eq!(Ok(64..96), generation.next_pass(false));
}

#[test]
fn full_nonce_makes_the_proof() {
    let prover = Prover8_56::from_pows(&[0; 32], 0..32, 1, &[5, 6]);
    let hits = [(3, 2), (20, 4), (20, 8), (3, 9)];
    match Generation::new(32).finish_pass(&prover, logged(2, &hits), &hits, 9) {
        Ok(PassEnd::Done(proof)) => assert_eq!(Proof::new(20, &[4, 8], 9, 6), proof),
        _ => panic!("a proof is due"),
    }
    assert_eq!(Some(6), prover.get_pow(20));
}

#[test]
fn last_window_can_make_a_proof() {
    let prover = Prover8_56::from_pows(&[0; 32], 0..32, 1, &[5, 6]);
    match Generation::new(u32::MAX as usize).finish_pass(
        &prover,
        logged(1, &[(0, 3)]),
        &[(0, 3)],
        9,
    ) {
        Ok(PassEnd::Done(proof)) => assert_eq!(Proof::new(0, &[3], 9, 5), proof),
        _ => panic!("a proof is due"),
    }
}

#[test]
fn disagreement_ends_the_generation() {
    let prover = Prover8_56::from_pows(&[0; 32], 0..16, 1, &[5]);
    let missing = Generation::new(16).finish_pass(&prover, logged(1, &[(3, 2)]), &[(3, 1)], 9);
    assert!(matches!(
        missing,
        Err(Mismatch::NotLogged { nonce: 3, index: 1 })
    ));
    let extra = Generation::new(16).finish_pass(&prover, logged(1, &[(3, 2)]), &[], 9);
    assert!(matches!(extra, Err(Mismatch::OnlyLogged)));
}

#[test]
fn proof_of_a_whole_pass_names_good_labels() {
    let labels: Vec<u8> = (0..64 * 16).map(|i| (i * 7 + i / 11) as u8).collect();
    let prover = Prover8_56::from_pows(&[9; 32], 0..16, u64::MAX / 4, &[42]);
    let mut log = HitLog::new(6);
    let reported = prover.good_labels(&labels, 0);
    log.record_all(&reported);
    let proof = match Generation::new(16).finish_pass(&prover, log, &reported, 64) {
        Ok(PassEnd::Done(proof)) => proof,
        _ => panic!("a proof is due"),
    };
    assert_eq!(42, proof.pow);
    let unpacked = decompress_indexes(&proof.indices, required_bits(64));
    for (i, index) in unpacked[..6].iter().enumerate() {
        assert!(*index < 64);
        assert!(!unpacked[..i].contains(index));
        assert!(reported.contains(&(proof.nonce, *index)));
    }
}

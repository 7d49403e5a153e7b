use std::cell::RefCell;
use std::collections::{HashMap, HashSet};
use std::ops::Range;

use aes::cipher::{BlockEncrypt, KeyInit};
use aes::Aes128;
use post_prove::cipher::{truncate_digest, AesCipher, CHUNK_SIZE};
use post_prove::hit_log::HitLog;
use post_prove::nonce::{calc_nonce, calc_nonce_group, nonce_group_range};
use post_prove::params::ProvingParams;
use post_prove::pow;
use post_prove::prove::GpuTask;
use post_prove::prover::{collect_pows, MsbVerdict, Prover, Prover8_56, ProverError};
use post_prove::sink::Sink;

const CHALLENGE: &[u8; 32] = b"hello world, challenge me!!!!!!!";

/// Ties in the most significant byte come up, and the rest is good for half of them.
const DIFFICULTY: u64 = 0x2080_0000_0000_0000;

/// Pays for a nonce group with a number that tells the groups apart.
struct GroupPow;

impl pow::Prover for GroupPow {
    fn prove(
        &self,
        nonce_group: u8,
        challenge: &[u8; 8],
        difficulty: &[u8; 32],
        miner_id: &[u8; 32],
    ) -> Result<u64, pow::Error> {
        assert_eq!(b"hello wo", challenge);
        assert_eq!(&[0xFF; 32], difficulty);
        assert_eq!(&[7; 32], miner_id);
        Ok(1000 + nonce_group as u64)
    }
}

/// Gives up at one nonce group.
struct FailsAt(u8);

impl pow::Prover for FailsAt {
    fn prove(
        &self,
        nonce_group: u8,
        _challenge: &[u8; 8],
        _difficulty: &[u8; 32],
        _miner_id: &[u8; 32],
    ) -> Result<u64, pow::Error> {
        if nonce_group == self.0 {
            Err(pow::Error::Internal(format!("group {nonce_group}")))
        } else {
            Ok(0)
        }
    }
}

/// Notes which nonce groups it is asked for.
struct CountingPow {
    fails_at: Option<u8>,
    asked: RefCell<Vec<u8>>,
}

impl pow::Prover for CountingPow {
    fn prove(
        &self,
        nonce_group: u8,
        _challenge: &[u8; 8],
        _difficulty: &[u8; 32],
        _miner_id: &[u8; 32],
    ) -> Result<u64, pow::Error> {
        self.asked.borrow_mut().push(nonce_group);
        if self.fails_at == Some(nonce_group) {
            Err(pow::Error::PoWNotFound)
        } else {
            Ok(0)
        }
    }
}

fn params() -> ProvingParams {
    ProvingParams {
        difficulty: DIFFICULTY,
        pow_difficulty: [0xFF; 32],
    }
}

fn prover(nonces: Range<u32>) -> Prover8_56 {
    Prover8_56::new(CHALLENGE, nonces, params(), &GroupPow, &[7; 32]).unwrap()
}

fn labels(count: usize) -> Vec<u8> {
    let mut state = 0x1234_5678_9abc_def0_u64;
    (0..count * 16)
        .map(|_| {
            state = state.wrapping_mul(6364136223846793005).wrapping_add(1442695040888963407);
            (state >> 56) as u8
        })
        .collect()
}

fn hits(prover: &Prover8_56, batch: &[u8], index: u64) -> Vec<(u32, u64)> {
    let mut hits = vec![];
    let found = prover.prove(batch, index, |nonce, label| {
        hits.push((nonce, label));
        None
    });
    assert_eq!(None, found);
    hits
}

fn key(parts: &[&[u8]]) -> [u8; 16] {
    blake3::hash(&parts.concat()).as_bytes()[..16].try_into().unwrap()
}

fn encrypted(key: [u8; 16], label: &[u8]) -> [u8; 16] {
    let mut block = aes::Block::clone_from_slice(label);
    Aes128::new(&key.into()).encrypt_block(&mut block);
    block.into()
}

/// The most significant byte and the remaining bits of a label for a nonce.
fn value(nonce: u32, label: &[u8]) -> (u8, u64) {
    let group = nonce / 16;
    let pow = 1000 + group as u64;
    let group_key = key(&[CHALLENGE, &group.to_le_bytes(), &pow.to_le_bytes()]);
    let nonce_key = key(&[
        CHALLENGE,
        &group.to_le_bytes(),
        &pow.to_le_bytes(),
        &nonce.to_le_bytes(),
    ]);
    let msb = encrypted(group_key, label)[(nonce % 16) as usize];
    let front: [u8; 8] = encrypted(nonce_key, label)[..8].try_into().unwrap();
    (msb, u64::from_le_bytes(front) & 0x00ff_ffff_ffff_ffff)
}

#[test]
fn hits_are_the_labels_below_the_difficulty() {
    let data = labels(256);
    let found = hits(&prover(32..64), &data, 5);
    let mut good_ties = 0;
    let mut bad_ties = 0;
    let mut expected = vec![];
    for chunk in 0..32 {
        for group in 2..4 {
            for label in chunk * 8..chunk * 8 + 8 {
                for nonce in group * 16..group * 16 + 16 {
                    let (msb, lsb) = value(nonce, &data[label * 16..label * 16 + 16]);
                    let good = ((msb as u64) << 56 | lsb) < DIFFICULTY;
                    if msb == 0x20 {
                        if good {
                            good_ties += 1;
                        } else {
                            bad_ties += 1;
                        }
                    }
                    if good {
                        expected.push((nonce, 5 + label as u64));
                    }
                }
            }
        }
    }
    assert!(good_ties > 0);
    assert!(bad_ties > 0);
    assert_eq!(expected, found);
}

#[test]
fn labels_ascend_for_each_nonce_and_occur_once() {
    let found = hits(&prover(0..32), &labels(256), 1 << 40);
    let mut last = HashMap::<u32, u64>::new();
    let mut seen = HashSet::new();
    assert!(found.len() > 32);
    for hit in found {
        assert!(seen.insert(hit));
        assert!(hit.0 < 32);
        assert!((1 << 40) <= hit.1 && hit.1 < (1 << 40) + 256);
        if let Some(earlier) = last.insert(hit.0, hit.1) {
            assert!(earlier < hit.1);
        }
    }
}

#[test]
fn batches_join() {
    let prover = prover(0..48);
    let data = labels(64);
    let (first, second) = data.split_at(24 * 16);
    let mut found = hits(&prover, first, 7);
    found.extend(hits(&prover, second, 7 + 24));
    assert_eq!(hits(&prover, &data, 7), found);
}

#[test]
fn leftover_labels_change_nothing() {
    let prover = prover(0..16);
    let data = labels(64);
    let whole = hits(&prover, &data[..56 * 16], 0);
    assert!(!whole.is_empty());
    assert_eq!(whole, hits(&prover, &data[..63 * 16 + 15], 0));
    assert_ne!(whole, hits(&prover, &data, 0));
    assert_eq!(Vec::<(u32, u64)>::new(), hits(&prover, &data[..127], 0));
    assert_eq!(Vec::<(u32, u64)>::new(), hits(&prover, &[], u64::MAX));
}

#[test]
fn answer_ends_the_scan() {
    let prover = prover(0..16);
    let data = labels(64);
    let all = hits(&prover, &data, 0);
    let mut handed = vec![];
    let found = prover.prove(&data, 0, |nonce, index| {
        handed.push((nonce, index));
        if handed.len() == 3 {
            Some(vec![index, 99])
        } else {
            None
        }
    });
    assert_eq!(all[..3], handed[..]);
    assert_eq!(Some((all[2].0, vec![all[2].1, 99])), found);
}

#[test]
fn tie_ends_the_scan() {
    let prover = prover(0..16);
    let data = labels(1024);
    let found = prover.prove(&data, 0, |nonce, index| {
        let start = index as usize * 16;
        if value(nonce, &data[start..start + 16]).0 == 0x20 {
            Some(vec![index])
        } else {
            None
        }
    });
    let (nonce, indexes) = found.unwrap();
    let start = indexes[0] as usize * 16;
    let (msb, lsb) = value(nonce, &data[start..start + 16]);
    assert_eq!(0x20, msb);
    assert!(lsb < 0x0080_0000_0000_0000);
}

#[test]
fn batches_are_listed_and_logged_in_any_order() {
    let prover = prover(0..16);
    let data = labels(64);
    let all = hits(&prover, &data, 0);
    for order in [[0, 1, 2, 3], [3, 1, 0, 2], [2, 3, 1, 0]] {
        let mut log = HitLog::new(1000);
        for batch in order {
            let start = batch * 16 * 16;
            log.record_all(&prover.good_labels(&data[start..start + 16 * 16], start as u64));
        }
        assert_eq!(Ok(()), log.compare(&all));
    }
    assert_eq!(all, prover.good_labels(&data, 0));
    assert_eq!(hits(&prover, &data, 5), prover.good_labels(&data, 5 * 16));
}

#[test]
fn pieces_with_gaps_give_good_labels_once() {
    let prover = prover(0..16);
    let data = labels(128);
    let all = hits(&prover, &data, 0);
    let mut found = vec![];
    for (first, count) in [(70, 21), (0, 8), (33, 30), (10, 23)] {
        let piece = &data[first * 16..(first + count) * 16];
        found.extend(prover.good_labels(piece, first as u64 * 16));
    }
    assert!(!found.is_empty());
    let distinct: HashSet<(u32, u64)> = found.iter().copied().collect();
    assert_eq!(distinct.len(), found.len());
    assert!(found.iter().all(|hit| all.contains(hit)));
}

/// Collects indexes by nonce, and hands out the first three of a nonce as soon as it has them.
struct Collector {
    indexes: HashMap<u32, Vec<u64>>,
}

impl Collector {
    fn add(&mut self, nonce: u32, index: u64) -> Option<Vec<u64>> {
        let indexes = self.indexes.entry(nonce).or_default();
        indexes.push(index);
        if indexes.len() >= 3 {
            Some(std::mem::take(indexes))
        } else {
            None
        }
    }
}

#[test]
fn collected_indexes_come_back() {
    let prover = prover(0..16);
    let data = labels(256);
    let mut collector = Collector {
        indexes: HashMap::new(),
    };
    let found = prover.prove(&data, 0, |nonce, index| collector.add(nonce, index));
    let mut log = HitLog::new(3);
    log.record_all(&prover.good_labels(&data, 0));
    assert!(found.is_some());
    assert_eq!(log.found(), found);
}

#[test]
fn list_takes_hits_without_an_answer() {
    let prover = prover(0..16);
    let data = labels(64);
    let mut list = vec![];
    assert_eq!(None, list.consume(7, 70));
    assert_eq!(None, prover.scan(&data, 0, &mut list));
    let mut expected = vec![(7, 70)];
    expected.extend(hits(&prover, &data, 0));
    assert_eq!(expected, list);
}

#[test]
fn difficulty_is_split() {
    assert_eq!(
        (0x12, 0x0034_5678_9abc_def0),
        Prover8_56::split_difficulty(0x1234_5678_9abc_def0)
    );
    assert_eq!(
        (0xff, 0x00ff_ffff_ffff_ffff),
        Prover8_56::split_difficulty(u64::MAX)
    );
    assert_eq!((0, 1), Prover8_56::split_difficulty(1));
}

#[test]
fn words_are_judged() {
    let prover = prover(0..16);
    assert_eq!(0x20, prover.difficulty_msb());
    assert_eq!(0x0080_0000_0000_0000, prover.difficulty_lsb());
    assert_eq!(MsbVerdict::Good, prover.check_msb(0));
    assert_eq!(MsbVerdict::Good, prover.check_msb(0x1f));
    assert_eq!(MsbVerdict::Tie, prover.check_msb(0x20));
    assert_eq!(MsbVerdict::Bad, prover.check_msb(0x21));
    assert_eq!(MsbVerdict::Bad, prover.check_msb(0xff));
    assert!(prover.check_lsb_word(0x007f_ffff_ffff_ffff));
    assert!(!prover.check_lsb_word(0x0080_0000_0000_0000));
    // The most significant byte of the word does not count.
    assert!(prover.check_lsb_word(0xff7f_ffff_ffff_ffff));
    assert!(!prover.check_lsb_word(0x0080_0000_0000_0001));
}

#[test]
fn aligned_window_serves_its_own_groups() {
    let prover = prover(32..64);
    assert_eq!(Some(1002), prover.get_pow(32));
    assert_eq!(Some(1002), prover.get_pow(47));
    assert_eq!(Some(1003), prover.get_pow(48));
    assert_eq!(Some(1003), prover.get_pow(63));
}

#[test]
fn misaligned_window_serves_other_groups() {
    let prover = prover(16..48);
    assert_eq!(Some(1002), prover.get_pow(16));
    assert_eq!(Some(1001), prover.get_pow(32));
}

#[test]
fn keys_are_hashed_from_the_challenge() {
    let prover = prover(16..32);
    let group_key = key(&[CHALLENGE, &1u32.to_le_bytes(), &1001u64.to_le_bytes()]);
    assert_eq!(vec![group_key], prover.msb_keys());
    let nonce_keys: Vec<[u8; 16]> = (16u32..32)
        .map(|nonce| {
            key(&[
                CHALLENGE,
                &1u32.to_le_bytes(),
                &1001u64.to_le_bytes(),
                &nonce.to_le_bytes(),
            ])
        })
        .collect();
    assert_eq!(nonce_keys, prover.lsb_keys());
    assert_eq!(
        AesCipher {
            key: group_key,
            nonce_group: 1,
            pow: 1001
        },
        AesCipher::new(CHALLENGE, 1, 1001)
    );
    assert_eq!(
        AesCipher {
            key: nonce_keys[4],
            nonce_group: 1,
            pow: 1001
        },
        AesCipher::new_lazy(CHALLENGE, 20, 1, 1001)
    );
}

#[test]
fn digest_is_halved() {
    let digest: [u8; 32] = core::array::from_fn(|i| i as u8);
    assert_eq!(
        [0, 1, 2, 3, 4, 5, 6, 7, 8, 9, 10, 11, 12, 13, 14, 15],
        truncate_digest(&digest)
    );
}

#[test]
fn prover_from_given_proofs_of_work() {
    let made = Prover8_56::from_pows(CHALLENGE, 32..64, DIFFICULTY, &[1002, 1003]);
    let data = labels(64);
    assert_eq!(hits(&prover(32..64), &data, 0), hits(&made, &data, 0));
    assert_eq!(prover(32..64).lsb_keys(), made.lsb_keys());
    assert_eq!(Some(1003), made.get_pow(50));
}

#[test]
fn failing_group_is_reported() {
    let made = Prover8_56::new(CHALLENGE, 0..64, params(), &FailsAt(2), &[7; 32]);
    let error = made.unwrap_err();
    assert_eq!(
        ProverError::Pow(pow::Error::Internal("group 2".to_string())),
        error
    );
    assert_eq!("group 2", error.message());
    assert!(Prover8_56::new(CHALLENGE, 0..32, params(), &FailsAt(2), &[7; 32]).is_ok());
    assert_eq!(
        "proof of work not found",
        ProverError::Pow(pow::Error::PoWNotFound).message()
    );
    assert_eq!(
        "out of range integral type conversion attempted",
        ProverError::NonceGroup(256).message()
    );
}

#[test]
fn groups_are_asked_for_once_and_in_order() {
    let asked = |nonces, fails_at| {
        let pow = CountingPow {
            fails_at,
            asked: RefCell::new(vec![]),
        };
        let made = Prover8_56::new(CHALLENGE, nonces, params(), &pow, &[7; 32]);
        (made.is_ok(), pow.asked.into_inner())
    };
    assert_eq!((true, vec![0]), asked(0..16, None));
    assert_eq!((false, vec![0]), asked(0..16, Some(0)));
    assert_eq!((true, vec![2, 3, 4]), asked(32..80, None));
    assert_eq!((false, vec![2, 3]), asked(32..80, Some(3)));
    assert_eq!((false, vec![]), asked(1..17, None));
    assert_eq!((false, vec![]), asked(16..16, None));
    assert_eq!((false, vec![255]), asked(4080..4112, None));
}

type Asked = (u8, [u8; 8], [u8; 32], [u8; 32]);

/// Counts up, and notes all that it is asked with.
struct Counter {
    fails_at: Option<u8>,
    asked: RefCell<Vec<Asked>>,
}

impl pow::Prover for Counter {
    fn prove(
        &self,
        nonce_group: u8,
        challenge: &[u8; 8],
        difficulty: &[u8; 32],
        miner_id: &[u8; 32],
    ) -> Result<u64, pow::Error> {
        let mut asked = self.asked.borrow_mut();
        asked.push((nonce_group, *challenge, *difficulty, *miner_id));
        if self.fails_at == Some(nonce_group) {
            Err(pow::Error::PoWNotFound)
        } else {
            Ok(69 + asked.len() as u64)
        }
    }
}

#[test]
fn proofs_of_work_are_collected() {
    let collect = |groups: Range<u32>, fails_at| {
        let counter = Counter {
            fails_at,
            asked: RefCell::new(vec![]),
        };
        let mut source = pow::Recorder::new(&counter);
        let pows = collect_pows(&mut source, groups, b"hello wo", &[5; 32], &[6; 32]);
        (pows, counter.asked.into_inner())
    };
    let request = |group| (group, *b"hello wo", [5; 32], [6; 32]);

    assert_eq!(
        (
            Ok(vec![70, 71, 72]),
            vec![request(2), request(3), request(4)]
        ),
        collect(2..5, None)
    );
    assert_eq!(
        (
            Err(ProverError::Pow(pow::Error::PoWNotFound)),
            vec![request(2), request(3)]
        ),
        collect(2..5, Some(3))
    );
    assert_eq!(
        (
            Err(ProverError::NonceGroup(256)),
            vec![request(254), request(255)]
        ),
        collect(254..258, None)
    );
    assert_eq!(
        (Err(ProverError::NonceGroup(300)), vec![]),
        collect(300..302, None)
    );
    assert_eq!((Ok(vec![]), vec![]), collect(9..9, None));
}

#[test]
fn nonces_look_up_their_ciphers() {
    let aligned = prover(32..64);
    for nonce in 32..64 {
        let group = nonce / 16;
        let pow = 1000 + group as u64;
        assert_eq!(
            Some(&AesCipher::new(CHALLENGE, group, pow)),
            aligned.cipher(nonce)
        );
        assert_eq!(
            Some(&AesCipher::new_lazy(CHALLENGE, nonce, group, pow)),
            aligned.lazy_cipher(nonce)
        );
    }
    let misaligned = prover(16..48);
    assert_eq!(
        Some(&AesCipher::new(CHALLENGE, 2, 1002)),
        misaligned.cipher(16)
    );
    assert_eq!(
        Some(&AesCipher::new_lazy(CHALLENGE, 32, 2, 1001)),
        misaligned.lazy_cipher(16)
    );
}

#[test]
fn nonces_and_groups_go_together() {
    assert_eq!(32, calc_nonce(2, 16, 0));
    assert_eq!(47, calc_nonce(2, 16, 15));
    assert_eq!(33, calc_nonce(2, 16, 17));
    for offset in 0..CHUNK_SIZE {
        assert_eq!(9, calc_nonce_group(calc_nonce(9, 16, offset), 16));
    }
    for group in nonce_group_range(30..50, 16) {
        assert!((30..50).any(|nonce| calc_nonce_group(nonce, 16) == group as usize));
    }
    assert_eq!(5..6, nonce_group_range(80..80, 16));
}

#[test]
fn device_task_describes_the_pass() {
    let prover = prover(32..64);
    let data = labels(8);
    let task = GpuTask::new(&prover, data.clone(), 32, 32, 37);
    assert_eq!(prover.msb_keys(), task.msb_keys);
    assert_eq!(prover.lsb_keys(), task.lsb_keys);
    assert_eq!(data, task.labels);
    assert_eq!(0, task.first_index);
    assert_eq!(32, task.start_nonce);
    assert_eq!(0x20, task.difficulty_msb);
    assert_eq!(0x0080_0000_0000_0000, task.difficulty_lsb);
    assert_eq!(4736, task.max_results);
}

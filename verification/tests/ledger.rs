use identity_ledger::error::Error;
use identity_ledger::hashing::{BlakeTwo256, ContentHasher};
use identity_ledger::ledger::ChallengeSolutionLedger;
use identity_ledger::solutions::{Challenge, Solution};
use parity_scale_codec::Encode;

fn reference_hash(data: &[u8]) -> [u8; 32] {
    <sp_runtime::traits::BlakeTwo256 as sp_runtime::traits::Hash>::hash(data).0
}

fn challenge(id: u32, payload: &[u8]) -> Challenge {
    Challenge { id, payload: payload.to_vec() }
}

fn ledger_with(ids: &[u32]) -> ChallengeSolutionLedger<BlakeTwo256> {
    let mut ledger = ChallengeSolutionLedger::new(BlakeTwo256);
    for id in ids {
        assert!(ledger.open_challenge(challenge(*id, &[])));
    }
    ledger
}

#[test]
fn blake_two_of_nothing_is_the_known_digest() {
    let expected: [u8; 32] = [
        0x0e, 0x57, 0x51, 0xc0, 0x26, 0xe5, 0x43, 0xb2, 0xe8, 0xab, 0x2e, 0xb0, 0x60, 0x99, 0xda,
        0xa1, 0xd1, 0xe5, 0xdf, 0x47, 0x77, 0x8f, 0x77, 0x87, 0xfa, 0xab, 0x45, 0xcd, 0xf1, 0x2f,
        0xe3, 0xa8,
    ];
    assert_eq!(BlakeTwo256.hash(&[]), expected);
}

#[test]
fn blake_two_depends_on_the_data() {
    let a = BlakeTwo256.hash(b"abc");
    assert_eq!(a, BlakeTwo256.hash(b"abc"));
    assert_ne!(a, BlakeTwo256.hash(b"abd"));
    assert_ne!(a.to_vec(), b"abc".to_vec());
    assert_eq!(a, reference_hash(b"abc"));
}

#[test]
fn submission_against_an_unknown_challenge_is_refused() {
    let mut ledger = ledger_with(&[1, 2]);
    assert_eq!(ledger.submit_solution(3, vec![1]), Err(Error::ChallengeNotFound));
    assert!(ledger.solution(3).is_none());
    let mut empty = ChallengeSolutionLedger::new(BlakeTwo256);
    assert_eq!(empty.submit_solution(0, vec![]), Err(Error::ChallengeNotFound));
}

#[test]
fn accepted_solution_is_bound_and_stamped() {
    let mut ledger = ChallengeSolutionLedger::new(BlakeTwo256);
    let prefix = (7u64, vec![vec![1u8, 2], vec![3u8]]).encode();
    ledger.set_block_prefix(prefix.clone());
    ledger.advance_clock(1_600_000_000_000);
    assert!(ledger.open_challenge(challenge(5, b"five")));
    assert!(ledger.open_challenge(challenge(2, b"two")));
    assert_eq!(ledger.submit_solution(2, b"secret".to_vec()), Ok(()));

    // the hash is taken over header and extrinsics, the challenge list, and the payload
    let mut input = prefix;
    input.extend(vec![(5u32, b"five".to_vec()), (2u32, b"two".to_vec())].encode());
    input.extend(b"secret".to_vec().encode());
    let expected = Solution {
        solution: b"secret".to_vec(),
        hash: reference_hash(&input),
        timestamp: 1_600_000_000_000,
    };
    assert_eq!(ledger.solution(2), Some(&expected));
    assert!(ledger.solution(5).is_none());
}

#[test]
fn first_solution_wins() {
    let mut ledger = ledger_with(&[4]);
    ledger.advance_clock(10);
    assert_eq!(ledger.submit_solution(4, vec![1, 1]), Ok(()));
    let first = ledger.solution(4).cloned();
    ledger.advance_clock(20);
    assert_eq!(ledger.submit_solution(4, vec![2, 2]), Err(Error::SolutionAlreadySubmitted));
    assert_eq!(ledger.submit_solution(4, vec![1, 1]), Err(Error::SolutionAlreadySubmitted));
    assert_eq!(ledger.solution(4).cloned(), first);
    assert_eq!(ledger.solution(4).map(|s| s.solution.clone()), Some(vec![1, 1]));
    assert_eq!(ledger.solution(4).map(|s| s.timestamp), Some(10));
    let (_, solutions) = ledger.snapshot();
    assert_eq!(solutions.solution_map.len(), 1);
}

#[test]
fn timestamps_never_decrease() {
    let mut ledger = ledger_with(&[1, 2, 3]);
    ledger.advance_clock(10);
    assert_eq!(ledger.submit_solution(3, vec![]), Ok(()));
    // the clock went back: the capture time stays
    ledger.advance_clock(5);
    assert_eq!(ledger.submit_solution(1, vec![]), Ok(()));
    ledger.advance_clock(20);
    assert_eq!(ledger.submit_solution(2, vec![]), Ok(()));
    assert_eq!(ledger.solution(3).map(|s| s.timestamp), Some(10));
    assert_eq!(ledger.solution(1).map(|s| s.timestamp), Some(10));
    assert_eq!(ledger.solution(2).map(|s| s.timestamp), Some(20));
}

#[test]
fn challenge_ids_are_unique() {
    let mut ledger = ChallengeSolutionLedger::new(BlakeTwo256);
    assert!(!ledger.is_open(1));
    assert!(ledger.open_challenge(challenge(1, b"a")));
    assert!(ledger.is_open(1));
    assert!(!ledger.open_challenge(challenge(1, b"b")));
    assert!(ledger.open_challenge(challenge(0, b"c")));
    let (challenges, _) = ledger.snapshot();
    assert_eq!(challenges, vec![challenge(1, b"a"), challenge(0, b"c")]);
}

#[test]
fn snapshot_hands_out_and_empties() {
    let mut ledger = ledger_with(&[9, 8]);
    ledger.set_block_prefix(vec![1, 2, 3]);
    ledger.advance_clock(77);
    assert_eq!(ledger.submit_solution(8, vec![5]), Ok(()));
    let (challenges, solutions) = ledger.snapshot();
    assert_eq!(challenges, vec![challenge(9, &[]), challenge(8, &[])]);
    assert_eq!(solutions.solution_map.keys().copied().collect::<Vec<u32>>(), vec![8]);
    assert_eq!(solutions.solution_map[&8].solution, vec![5]);
    assert_eq!(solutions.solution_map[&8].timestamp, 77);

    // the next block starts empty
    assert!(!ledger.is_open(9));
    assert!(ledger.solution(8).is_none());
    assert_eq!(ledger.submit_solution(8, vec![5]), Err(Error::ChallengeNotFound));
    let (challenges, solutions) = ledger.snapshot();
    assert!(challenges.is_empty());
    assert!(solutions.solution_map.is_empty());
    // with no block prefix and the clock at zero
    assert!(ledger.open_challenge(challenge(8, &[])));
    assert_eq!(ledger.submit_solution(8, vec![5]), Ok(()));
    let mut input = vec![(8u32, Vec::<u8>::new())].encode();
    input.extend(vec![5u8].encode());
    assert_eq!(
        ledger.solution(8).map(|s| s.hash),
        Some(reference_hash(&input))
    );
    assert_eq!(ledger.solution(8).map(|s| s.timestamp), Some(0));
}

#[test]
fn hash_follows_the_block_prefix() {
    let mut a = ledger_with(&[1]);
    let mut b = ledger_with(&[1]);
    a.set_block_prefix(vec![1]);
    b.set_block_prefix(vec![2]);
    assert_eq!(a.submit_solution(1, vec![9]), Ok(()));
    assert_eq!(b.submit_solution(1, vec![9]), Ok(()));
    assert_ne!(a.solution(1).map(|s| s.hash), b.solution(1).map(|s| s.hash));
}

#[test]
fn challenge_and_solution_have_their_known_bytes() {
    let c = challenge(0x0102_0304, b"ab");
    let mut bytes = Vec::new();
    identity_ledger::codec::Codec::encode_to(&c, &mut bytes);
    assert_eq!(bytes, vec![4, 3, 2, 1, 0x08, b'a', b'b']);
    assert_eq!(bytes, (0x0102_0304u32, b"ab".to_vec()).encode());
    assert_eq!(<Challenge as identity_ledger::codec::Codec>::decode(&bytes), Ok((c.clone(), 7)));
    assert!(identity_ledger::codec::Codec::is_encodable(&c));

    let s = Solution { solution: vec![9], hash: [3; 32], timestamp: 0x0100 };
    let mut bytes = Vec::new();
    identity_ledger::codec::Codec::encode_to(&s, &mut bytes);
    let mut expected = vec![0x04, 9];
    expected.extend_from_slice(&[3; 32]);
    expected.extend_from_slice(&[0, 1, 0, 0, 0, 0, 0, 0]);
    assert_eq!(bytes, expected);
    assert_eq!(bytes, (vec![9u8], [3u8; 32], 0x0100u64).encode());
    assert_eq!(<Solution as identity_ledger::codec::Codec>::decode(&bytes), Ok((s, 42)));
    assert_eq!(
        <Solution as identity_ledger::codec::Codec>::decode(&bytes[..41]),
        Err(Error::EncodingError)
    );
}

#[test]
fn recorded_block_is_hashed_by_its_encoding() {
    let extrinsics: Vec<Vec<u8>> = vec![vec![1, 2], vec![3]];
    let mut typed = ledger_with(&[1]);
    typed.record_block(&7u64, &extrinsics);
    let mut bytes = ledger_with(&[1]);
    bytes.set_block_prefix((7u64, extrinsics.clone()).encode());
    assert_eq!(typed.submit_solution(1, vec![9]), Ok(()));
    assert_eq!(bytes.submit_solution(1, vec![9]), Ok(()));
    assert_eq!(typed.solution(1), bytes.solution(1));
    assert_eq!(typed.content_hash(&vec![9]), bytes.content_hash(&vec![9]));
    assert_eq!(typed.solution(1).map(|s| s.hash), Some(typed.content_hash(&vec![9])));

    let mut input = (7u64, extrinsics).encode();
    input.extend(vec![(1u32, Vec::<u8>::new())].encode());
    input.extend(vec![9u8].encode());
    assert_eq!(typed.content_hash(&vec![9]), reference_hash(&input));
}

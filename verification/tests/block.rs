use identity_ledger::block::Block;
use identity_ledger::codec::Codec;
use identity_ledger::error::Error;
use identity_ledger::hashing::BlakeTwo256;
use identity_ledger::ledger::ChallengeSolutionLedger;
use identity_ledger::signed_block::SignedBlock;
use identity_ledger::solutions::{Challenge, Solution, SolutionsBlock};
use parity_scale_codec::Encode;
use sp_runtime::Justifications;
use std::collections::BTreeMap;

fn extrinsics() -> Vec<Vec<u8>> {
    vec![vec![1, 2], vec![], vec![3]]
}

fn solution(payload: &[u8], fill: u8, timestamp: u64) -> Solution {
    Solution { solution: payload.to_vec(), hash: [fill; 32], timestamp }
}

#[test]
fn new_block_carries_nothing_else() {
    let block = Block::new(7u64, extrinsics());
    assert_eq!(block.header, 7);
    assert_eq!(block.extrinsics, extrinsics());
    assert!(block.challenges.is_empty());
    assert!(block.proposed_solutions.is_empty());
    assert_eq!(*block.header(), 7);
    assert_eq!(block.extrinsics(), &extrinsics()[..]);
}

#[test]
fn deconstruct_gives_back_what_new_took() {
    assert_eq!(Block::new(7u64, extrinsics()).deconstruct(), (7u64, extrinsics()));
    assert_eq!(Block::<u32, u8>::new(0, vec![]).deconstruct(), (0u32, Vec::<u8>::new()));
}

#[test]
fn deconstruct_drops_challenges_and_solutions() {
    let block = Block {
        header: 1u64,
        extrinsics: vec![2u32],
        challenges: vec![9],
        proposed_solutions: vec![8],
    };
    assert_eq!(block.deconstruct(), (1u64, vec![2u32]));
}

#[test]
fn encode_from_has_its_known_bytes() {
    let bytes = Block::<u64, Vec<u8>>::encode_from(&7, &extrinsics());
    assert_eq!(bytes, vec![7, 0, 0, 0, 0, 0, 0, 0, 0x0c, 0x08, 1, 2, 0x00, 0x04, 3]);
    assert_eq!(Block::<u32, u8>::encode_from(&1, &[]), vec![1, 0, 0, 0, 0x00]);
}

#[test]
fn encode_from_agrees_with_the_scale_codec() {
    let header = 0x0102_0304_0506_0708u64;
    let long: Vec<Vec<u8>> = (0..70u8).map(|i| vec![i; i as usize]).collect();
    assert_eq!(Block::<u64, Vec<u8>>::encode_from(&header, &long), (header, &long[..]).encode());
    assert_eq!(
        Block::<Vec<u8>, u32>::encode_from(&vec![1, 2, 3], &[4, 5]),
        (vec![1u8, 2, 3], &[4u32, 5][..]).encode()
    );
}

#[test]
fn encode_from_leaves_out_challenges_and_solutions() {
    let plain = Block::new(7u64, extrinsics());
    let loaded = Block {
        header: 7u64,
        extrinsics: extrinsics(),
        challenges: vec![1, 2, 3],
        proposed_solutions: vec![4, 5],
    };
    assert_eq!(
        Block::<u64, Vec<u8>>::encode_from(&plain.header, &plain.extrinsics),
        Block::<u64, Vec<u8>>::encode_from(&loaded.header, &loaded.extrinsics)
    );
}

#[test]
fn decode_from_reads_back_what_encode_from_wrote() {
    let bytes = Block::<u64, Vec<u8>>::encode_from(&7, &extrinsics());
    assert_eq!(Block::<u64, Vec<u8>>::decode_from(&bytes), Ok((7u64, extrinsics())));
    let bytes = Block::<u64, Vec<u8>>::encode_from(&u64::MAX, &[]);
    assert_eq!(Block::<u64, Vec<u8>>::decode_from(&bytes), Ok((u64::MAX, vec![])));
}

#[test]
fn decode_from_refuses_malformed_bytes() {
    let bytes = Block::<u64, Vec<u8>>::encode_from(&7, &extrinsics());
    // cut short
    assert_eq!(
        Block::<u64, Vec<u8>>::decode_from(&bytes[..bytes.len() - 1]),
        Err(Error::EncodingError)
    );
    assert_eq!(Block::<u64, Vec<u8>>::decode_from(&[]), Err(Error::EncodingError));
    // something behind the encoding
    let mut longer = bytes.clone();
    longer.push(0);
    assert_eq!(Block::<u64, Vec<u8>>::decode_from(&longer), Err(Error::EncodingError));
    // a count that is not in its shortest form
    assert_eq!(
        Block::<u64, Vec<u8>>::decode_from(&[7, 0, 0, 0, 0, 0, 0, 0, 0x01, 0x00]),
        Err(Error::EncodingError)
    );
}

#[test]
fn assembled_block_embeds_the_ledger() {
    let mut ledger = ChallengeSolutionLedger::new(BlakeTwo256);
    ledger.set_block_prefix(Block::<u64, Vec<u8>>::encode_from(&7, &extrinsics()));
    ledger.advance_clock(1234);
    assert!(ledger.open_challenge(Challenge { id: 300, payload: vec![1] }));
    assert!(ledger.open_challenge(Challenge { id: 2, payload: vec![] }));
    assert!(ledger.open_challenge(Challenge { id: 70000, payload: vec![2, 3] }));
    assert_eq!(ledger.submit_solution(70000, vec![0xaa]), Ok(()));
    assert_eq!(ledger.submit_solution(2, vec![0xbb, 0xcc]), Ok(()));
    let first = ledger.solution(70000).cloned();
    let second = ledger.solution(2).cloned();

    let block = Block::assemble(7u64, extrinsics(), &mut ledger);
    assert_eq!(block.header, 7);
    assert_eq!(block.extrinsics, extrinsics());
    // the challenges in the order in which they were opened
    assert_eq!(
        block.challenges,
        vec![(300u32, vec![1u8]), (2u32, vec![]), (70000u32, vec![2u8, 3])].encode()
    );
    // the solutions by ascending challenge id
    let mut map: BTreeMap<u32, (Vec<u8>, [u8; 32], u64)> = BTreeMap::new();
    for (id, s) in [(70000u32, first.clone()), (2u32, second.clone())] {
        let s = s.expect("accepted");
        map.insert(id, (s.solution, s.hash, s.timestamp));
    }
    assert_eq!(block.proposed_solutions, map.encode());
    assert_eq!(block.proposed_solutions[0], 0x08);
    assert_eq!(&block.proposed_solutions[1..5], &[2, 0, 0, 0]);

    // read back from the block
    assert_eq!(
        block.decode_challenges(),
        Ok(vec![
            Challenge { id: 300, payload: vec![1] },
            Challenge { id: 2, payload: vec![] },
            Challenge { id: 70000, payload: vec![2, 3] },
        ])
    );
    let solutions = block.decode_solutions().map(|s| s.solution_map);
    let mut expected = BTreeMap::new();
    expected.insert(70000u32, first.expect("accepted"));
    expected.insert(2u32, second.expect("accepted"));
    assert_eq!(solutions, Ok(expected));

    // the ledger starts the next block empty
    assert!(!ledger.is_open(2));
    let next = Block::<u64, Vec<u8>>::assemble(8, vec![], &mut ledger);
    assert_eq!(next.challenges, vec![0x00]);
    assert_eq!(next.proposed_solutions, vec![0x00]);
}

#[test]
fn solutions_out_of_order_are_refused() {
    let mut ascending = Vec::new();
    let mut block = SolutionsBlock { solution_map: BTreeMap::new() };
    block.solution_map.insert(5, solution(b"b", 2, 20));
    block.solution_map.insert(1, solution(b"a", 1, 10));
    block.encode_to(&mut ascending);
    let mut expected = vec![0x08, 1, 0, 0, 0, 0x04, b'a'];
    expected.extend_from_slice(&[1; 32]);
    expected.extend_from_slice(&[10, 0, 0, 0, 0, 0, 0, 0]);
    expected.extend_from_slice(&[5, 0, 0, 0, 0x04, b'b']);
    expected.extend_from_slice(&[2; 32]);
    expected.extend_from_slice(&[20, 0, 0, 0, 0, 0, 0, 0]);
    assert_eq!(ascending, expected);
    let read = SolutionsBlock::decode(&ascending).map(|(s, used)| (s.solution_map, used));
    assert_eq!(read, Ok((block.solution_map, expected.len())));

    // the same entries, the larger id first
    let mut swapped = vec![0x08, 5, 0, 0, 0, 0x04, b'b'];
    swapped.extend_from_slice(&[2; 32]);
    swapped.extend_from_slice(&[20, 0, 0, 0, 0, 0, 0, 0]);
    swapped.extend_from_slice(&[1, 0, 0, 0, 0x04, b'a']);
    swapped.extend_from_slice(&[1; 32]);
    swapped.extend_from_slice(&[10, 0, 0, 0, 0, 0, 0, 0]);
    assert!(matches!(SolutionsBlock::decode(&swapped), Err(Error::EncodingError)));

    // one id twice
    let mut twice = vec![0x08];
    for _ in 0..2 {
        twice.extend_from_slice(&[1, 0, 0, 0, 0x04, b'a']);
        twice.extend_from_slice(&[1; 32]);
        twice.extend_from_slice(&[10, 0, 0, 0, 0, 0, 0, 0]);
    }
    assert!(matches!(SolutionsBlock::decode(&twice), Err(Error::EncodingError)));

    let carrier = Block {
        header: 0u8,
        extrinsics: Vec::<u8>::new(),
        challenges: vec![0x04, 1, 0, 0],
        proposed_solutions: swapped,
    };
    assert!(matches!(carrier.decode_solutions(), Err(Error::EncodingError)));
    assert_eq!(carrier.decode_challenges(), Err(Error::EncodingError));
}

#[test]
fn block_encoding_is_read_back() {
    let block = Block {
        header: 7u64,
        extrinsics: extrinsics(),
        challenges: vec![1, 2, 3],
        proposed_solutions: vec![4; 70],
    };
    let mut bytes = Vec::new();
    block.encode_to(&mut bytes);
    assert_eq!(
        bytes,
        (7u64, extrinsics(), vec![1u8, 2, 3], vec![4u8; 70]).encode()
    );
    assert_eq!(Block::<u64, Vec<u8>>::decode(&bytes), Ok((block, bytes.len())));
    assert_eq!(
        Block::<u64, Vec<u8>>::decode(&bytes[..bytes.len() - 1]),
        Err(Error::EncodingError)
    );
}

#[test]
fn signed_block_carries_block_and_justifications() {
    let block = Block::new(7u64, extrinsics());
    let unsigned = SignedBlock { block: block.clone(), justifications: None };
    assert_eq!(unsigned.block, block);
    assert!(unsigned.justifications.is_none());

    let evidence = Justifications::new(vec![(*b"FRNK", vec![1, 2, 3])]);
    let signed = SignedBlock { block: block.clone(), justifications: Some(evidence.clone()) };
    assert_eq!(signed.justifications, Some(evidence));
    assert_eq!(signed.clone(), signed);
    assert_ne!(signed, unsigned);
    assert_eq!(signed.block.deconstruct(), (7u64, extrinsics()));
}

#[test]
fn signed_block_encoding_agrees_with_the_scale_codec() {
    let block = Block {
        header: 7u64,
        extrinsics: extrinsics(),
        challenges: vec![1, 2, 3],
        proposed_solutions: vec![4, 5],
    };
    let plain = (7u64, extrinsics(), vec![1u8, 2, 3], vec![4u8, 5]);

    let unsigned = SignedBlock { block: block.clone(), justifications: None };
    let mut bytes = Vec::new();
    unsigned.encode_to(&mut bytes);
    assert_eq!(bytes, (plain.clone(), None::<Justifications>).encode());
    assert_eq!(bytes.last(), Some(&0));
    assert_eq!(SignedBlock::<Block<u64, Vec<u8>>>::decode(&bytes), Ok((unsigned, bytes.len())));

    let evidence = Justifications::new(vec![(*b"FRNK", vec![1, 2, 3]), (*b"BEEF", vec![])]);
    let signed = SignedBlock { block, justifications: Some(evidence.clone()) };
    assert!(signed.is_encodable());
    let mut bytes = Vec::new();
    signed.encode_to(&mut bytes);
    assert_eq!(bytes, (plain, Some(evidence)).encode());
    let tail = [1, 0x08, b'F', b'R', b'N', b'K', 0x0c, 1, 2, 3, b'B', b'E', b'E', b'F', 0x00];
    assert_eq!(&bytes[bytes.len() - tail.len()..], &tail[..]);
    assert_eq!(
        SignedBlock::<Block<u64, Vec<u8>>>::decode(&bytes),
        Ok((signed, bytes.len()))
    );

    // a byte other than 0 or 1 where the justifications begin
    let at = bytes.len() - tail.len();
    bytes[at] = 2;
    assert_eq!(SignedBlock::<Block<u64, Vec<u8>>>::decode(&bytes), Err(Error::EncodingError));
    // cut short within a proof
    bytes[at] = 1;
    assert_eq!(
        SignedBlock::<Block<u64, Vec<u8>>>::decode(&bytes[..at + 8]),
        Err(Error::EncodingError)
    );
}

#[test]
fn solutions_of_a_ledger_can_be_encoded() {
    let mut block = SolutionsBlock { solution_map: BTreeMap::new() };
    assert!(block.is_encodable());
    block.solution_map.insert(3, solution(b"x", 1, 5));
    block.solution_map.insert(u32::MAX, solution(b"", 2, u64::MAX));
    assert!(block.is_encodable());
    let mut bytes = Vec::new();
    block.encode_to(&mut bytes);
    let plain: BTreeMap<u32, (Vec<u8>, [u8; 32], u64)> = block
        .solution_map
        .iter()
        .map(|(id, s)| (*id, (s.solution.clone(), s.hash, s.timestamp)))
        .collect();
    assert_eq!(bytes, plain.encode());
    assert_eq!(SolutionsBlock::decode(&bytes), Ok((block, bytes.len())));
}

//! The ledger of the block under construction: the challenges that are open in
//! it and the solutions accepted against them, one for each challenge at most.

use crate::block::{encodable_from, encoding_from, Block};
use crate::bytes::bytes_copy;
use crate::codec::Codec;
use crate::error::Error;
use crate::hashing::ContentHasher;
use crate::ordered::{lemma_sorted_keys, lemma_sorted_keys_len, sorted_entries, sorted_keys};
use crate::sequence::items_encodable;
use crate::solutions::{Challenge, ChallengeView, Solution, SolutionView, SolutionsBlock};
use std::collections::BTreeMap;
use vstd::prelude::*;

verus! {

/// What the ledger holds, as mathematics.
#[verifier::ext_equal]
pub struct LedgerState {
    /// The canonical encoding of the header and the extrinsics of the block so far.
    pub block_prefix: Seq<u8>,
    /// The block producer's latest reading of its clock.
    pub capture_time: u64,
    /// The open challenges, in the order in which they were opened.
    pub challenges: Seq<ChallengeView>,
    /// The accepted solutions, by challenge id.
    pub solutions: Map<u32, SolutionView>,
}

impl LedgerState {
    /// The ledger at the start of a block: nothing open, nothing accepted.
    pub open spec fn empty() -> Self {
        LedgerState {
            block_prefix: Seq::empty(),
            capture_time: 0,
            challenges: Seq::empty(),
            solutions: Map::empty(),
        }
    }

    /// The challenge `id` is open in this block.
    pub open spec fn is_open(self, id: u32) -> bool {
        exists|i: int| 0 <= i < self.challenges.len() && (#[trigger] self.challenges[i]).id == id
    }

    /// What always holds of a ledger: challenge ids are unique, the challenge
    /// list can be encoded, every solution answers an open challenge, can be
    /// encoded, and is stamped no later than the latest clock reading.
    pub open spec fn well_formed(self) -> bool {
        &&& forall|i: int, j: int|
            0 <= i < j < self.challenges.len() ==> (#[trigger] self.challenges[i]).id != (
            #[trigger] self.challenges[j]).id
        &&& <Vec<Challenge> as Codec>::encodable(self.challenges)
        &&& forall|id: u32| #[trigger]
            self.solutions.contains_key(id) ==> {
                &&& self.is_open(id)
                &&& Solution::encodable(self.solutions[id])
                &&& self.solutions[id].timestamp <= self.capture_time
            }
    }

    /// Whether `challenge` can be opened: its id is not open yet, and the
    /// challenge list with it can still be encoded.
    pub open spec fn can_open(self, challenge: ChallengeView) -> bool {
        &&& !self.is_open(challenge.id)
        &&& self.challenges.len() < u32::MAX
        &&& challenge.payload.len() <= u32::MAX
    }

    /// The ledger after an attempt to open `challenge`.
    pub open spec fn open_challenge(self, challenge: ChallengeView) -> Self {
        if self.can_open(challenge) {
            LedgerState { challenges: self.challenges.push(challenge), ..self }
        } else {
            self
        }
    }

    /// The ledger after the block producer recorded `block_prefix` as the
    /// encoding of the header and the extrinsics of the block so far.
    pub open spec fn set_block_prefix(self, block_prefix: Seq<u8>) -> Self {
        LedgerState { block_prefix, ..self }
    }

    /// The ledger after the block producer read `now` off its clock: the
    /// capture time never goes back.
    pub open spec fn advance_clock(self, now: u64) -> Self {
        LedgerState {
            capture_time: if now > self.capture_time {
                now
            } else {
                self.capture_time
            },
            ..self
        }
    }

    /// The bytes that the hash of a solution with this payload is taken over:
    /// the encoding of header and extrinsics, of the challenge list, and of
    /// the payload, in this order.
    pub open spec fn hash_input(self, payload: Seq<u8>) -> Seq<u8> {
        self.block_prefix + <Vec<Challenge> as Codec>::encoding(self.challenges) + <Vec<
            u8,
        > as Codec>::encoding(payload)
    }

    /// What a submission against challenge `id` answers.
    pub open spec fn submit_outcome(self, id: u32) -> Result<(), Error> {
        if !self.is_open(id) {
            Err(Error::ChallengeNotFound)
        } else if self.solutions.contains_key(id) {
            Err(Error::SolutionAlreadySubmitted)
        } else {
            Ok(())
        }
    }

    /// The ledger after a submission of `payload` against challenge `id`, where
    /// `hash` is the hash taken over `hash_input(payload)`. A refused
    /// submission changes nothing.
    pub open spec fn submit(self, id: u32, payload: Seq<u8>, hash: Seq<u8>) -> Self {
        if self.submit_outcome(id) is Ok {
            LedgerState {
                solutions: self.solutions.insert(
                    id,
                    SolutionView { solution: payload, hash, timestamp: self.capture_time },
                ),
                ..self
            }
        } else {
            self
        }
    }
}

/// Ledgers with the same challenge list have the same challenges open.
proof fn lemma_same_challenges(a: LedgerState, b: LedgerState)
    requires
        a.challenges == b.challenges,
    ensures
        forall|id: u32| a.is_open(id) == b.is_open(id),
{
    assert forall|id: u32| a.is_open(id) == b.is_open(id) by {
        if a.is_open(id) {
            let i = choose|i: int|
                0 <= i < a.challenges.len() && (#[trigger] a.challenges[i]).id == id;
            assert(b.challenges[i].id == id);
        }
        if b.is_open(id) {
            let i = choose|i: int|
                0 <= i < b.challenges.len() && (#[trigger] b.challenges[i]).id == id;
            assert(a.challenges[i].id == id);
        }
    }
}

/// The solutions of a well-formed ledger are no more than its challenges, so
/// their map can be encoded.
pub proof fn lemma_solutions_encodable(state: LedgerState)
    requires
        state.well_formed(),
    ensures
        SolutionsBlock::encodable(state.solutions),
        state.solutions.dom().len() <= state.challenges.len(),
{
    let ids = state.challenges.map_values(|c: ChallengeView| c.id);
    let solved = state.solutions.dom();
    assert forall|id: u32| solved.contains(id) implies ids.to_set().contains(id) by {
        assert(state.solutions.contains_key(id));
        let i = choose|i: int|
            0 <= i < state.challenges.len() && (#[trigger] state.challenges[i]).id == id;
        assert(ids[i] == id);
    }
    vstd::seq_lib::seq_to_set_is_finite(ids);
    vstd::set_lib::lemma_len_subset(solved, ids.to_set());
    ids.lemma_cardinality_of_set();
    lemma_sorted_keys_len(solved);
    lemma_sorted_keys(solved);
    let entries = sorted_entries(state.solutions);
    assert forall|i: int| 0 <= i < entries.len() implies <(u32, Solution) as Codec>::encodable(
        #[trigger] entries[i],
    ) by {
        let key = sorted_keys(solved)[i];
        assert(sorted_keys(solved).contains(key));
        assert(state.solutions.contains_key(key));
    }
}

/// Where the recorded prefix is the encoding of a header and its extrinsics,
/// the hash of a solution is taken over the canonical encoding of header,
/// extrinsics, challenge list and payload.
pub proof fn law_hash_input_is_canonical<Header: Codec, Extrinsic: Codec>(
    state: LedgerState,
    header: <Header as DeepView>::V,
    extrinsics: Seq<<Extrinsic as DeepView>::V>,
    payload: Seq<u8>,
)
    requires
        state.block_prefix == encoding_from::<Header, Extrinsic>(header, extrinsics),
    ensures
        state.hash_input(payload) == <(
            (Header, Vec<Extrinsic>),
            (Vec<Challenge>, Vec<u8>),
        ) as Codec>::encoding(((header, extrinsics), (state.challenges, payload))),
{
    let prefix = state.block_prefix;
    let list = <Vec<Challenge> as Codec>::encoding(state.challenges);
    let last = <Vec<u8> as Codec>::encoding(payload);
    assert(prefix + list + last =~= prefix + (list + last));
}

/// Of two submissions against one open challenge, the second is refused and
/// changes nothing: the ledger keeps the solution of the first.
pub proof fn law_first_solution_wins(
    state: LedgerState,
    id: u32,
    first: Seq<u8>,
    first_hash: Seq<u8>,
    second: Seq<u8>,
    second_hash: Seq<u8>,
)
    requires
        state.is_open(id),
    ensures
        state.submit(id, first, first_hash).submit_outcome(id) == Err::<(), Error>(
            Error::SolutionAlreadySubmitted,
        ),
        state.submit(id, first, first_hash).submit(id, second, second_hash) == state.submit(
            id,
            first,
            first_hash,
        ),
        state.submit_outcome(id) is Ok ==> state.submit(id, first, first_hash).solutions[id]
            == (SolutionView { solution: first, hash: first_hash, timestamp: state.capture_time }),
{
    lemma_same_challenges(state, state.submit(id, first, first_hash));
}

/// A submission is accepted exactly when its challenge is open and unsolved;
/// a refused submission leaves the ledger as it was.
pub proof fn law_submission_outcome(state: LedgerState, id: u32, payload: Seq<u8>, hash: Seq<u8>)
    ensures
        state.submit_outcome(id) is Ok <==> state.is_open(id) && !state.solutions.contains_key(id),
        !state.is_open(id) ==> state.submit_outcome(id) == Err::<(), Error>(
            Error::ChallengeNotFound,
        ),
        state.submit_outcome(id) is Err ==> state.submit(id, payload, hash) == state,
{
}

/// An accepted solution is immutable: once a challenge has a solution, no
/// later submission, clock reading or challenge changes it.
pub proof fn law_solutions_are_immutable(
    state: LedgerState,
    id: u32,
    other: u32,
    payload: Seq<u8>,
    hash: Seq<u8>,
    now: u64,
    challenge: ChallengeView,
)
    requires
        state.solutions.contains_key(id),
    ensures
        state.submit(other, payload, hash).solutions.contains_key(id),
        state.submit(other, payload, hash).solutions[id] == state.solutions[id],
        state.advance_clock(now).solutions == state.solutions,
        state.open_challenge(challenge).solutions == state.solutions,
{
}

/// Timestamps never decrease from one accepted solution to the next: a newly
/// accepted solution is stamped no earlier than any solution already in the block.
pub proof fn law_timestamps_never_decrease(
    state: LedgerState,
    now: u64,
    id: u32,
    payload: Seq<u8>,
    hash: Seq<u8>,
    earlier: u32,
)
    requires
        state.well_formed(),
        state.solutions.contains_key(earlier),
        state.advance_clock(now).submit_outcome(id) is Ok,
    ensures
        state.solutions[earlier].timestamp <= state.advance_clock(now).submit(
            id,
            payload,
            hash,
        ).solutions[id].timestamp,
{
}

/// The empty ledger is well-formed.
pub proof fn law_empty_ledger_is_well_formed()
    ensures
        LedgerState::empty().well_formed(),
{
}

/// Opening a challenge keeps the ledger well-formed.
pub proof fn law_opening_keeps_well_formed(state: LedgerState, challenge: ChallengeView)
    requires
        state.well_formed(),
    ensures
        state.open_challenge(challenge).well_formed(),
{
    let opened = state.open_challenge(challenge);
    if state.can_open(challenge) {
        assert forall|i: int, j: int| 0 <= i < j < opened.challenges.len() implies (
        #[trigger] opened.challenges[i]).id != (#[trigger] opened.challenges[j]).id by {
            if j < state.challenges.len() {
                assert(state.challenges[i].id != state.challenges[j].id);
            } else {
                assert(state.challenges[i].id != challenge.id);
            }
        }
        assert forall|i: int| 0 <= i < opened.challenges.len() implies Challenge::encodable(
            #[trigger] opened.challenges[i],
        ) by {
            if i < state.challenges.len() {
                assert(Challenge::encodable(state.challenges[i]));
            }
        }
        assert forall|id: u32| #[trigger] opened.solutions.contains_key(id) implies opened.is_open(
            id,
        ) by {
            assert(state.is_open(id));
            let i = choose|i: int|
                0 <= i < state.challenges.len() && (#[trigger] state.challenges[i]).id == id;
            assert(opened.challenges[i].id == id);
        }
    }
}

/// Recording a block prefix or a clock reading keeps the ledger well-formed.
pub proof fn law_recording_keeps_well_formed(state: LedgerState, block_prefix: Seq<u8>, now: u64)
    requires
        state.well_formed(),
    ensures
        state.set_block_prefix(block_prefix).well_formed(),
        state.advance_clock(now).well_formed(),
{
    lemma_same_challenges(state, state.set_block_prefix(block_prefix));
    lemma_same_challenges(state, state.advance_clock(now));
    assert forall|id: u32| #[trigger]
        state.advance_clock(now).solutions.contains_key(id) implies state.advance_clock(now).is_open(
        id,
    ) by {
        assert(state.solutions.contains_key(id));
    }
    assert forall|id: u32| #[trigger]
        state.set_block_prefix(block_prefix).solutions.contains_key(id) implies state.set_block_prefix(
        block_prefix,
    ).is_open(id) by {
        assert(state.solutions.contains_key(id));
    }
}

/// A submission keeps the ledger well-formed, where its payload can be
/// encoded and its hash has 32 bytes.
pub proof fn law_submission_keeps_well_formed(
    state: LedgerState,
    id: u32,
    payload: Seq<u8>,
    hash: Seq<u8>,
)
    requires
        state.well_formed(),
        payload.len() <= u32::MAX,
        hash.len() == 32,
    ensures
        state.submit(id, payload, hash).well_formed(),
{
    let next = state.submit(id, payload, hash);
    lemma_same_challenges(state, next);
    assert forall|k: u32| #[trigger] next.solutions.contains_key(k) implies {
        &&& next.is_open(k)
        &&& Solution::encodable(next.solutions[k])
        &&& next.solutions[k].timestamp <= next.capture_time
    } by {
        if k != id || state.solutions.contains_key(k) {
            assert(state.solutions.contains_key(k));
            assert(state.is_open(k));
        } else {
            assert(state.is_open(k));
            assert(items_encodable::<u8>(payload));
        }
    }
}

/// The open challenges and the accepted solutions of the block under
/// construction, with the hasher that binds each solution to the block.
pub struct ChallengeSolutionLedger<Hashing: ContentHasher> {
    hasher: Hashing,
    block_prefix: Vec<u8>,
    capture_time: u64,
    challenges: Vec<Challenge>,
    solutions: SolutionsBlock,
}

impl<Hashing: ContentHasher> View for ChallengeSolutionLedger<Hashing> {
    type V = LedgerState;

    closed spec fn view(&self) -> LedgerState {
        LedgerState {
            block_prefix: self.block_prefix@,
            capture_time: self.capture_time,
            challenges: self.challenges.deep_view(),
            solutions: self.solutions.deep_view(),
        }
    }
}

impl<Hashing: ContentHasher> ChallengeSolutionLedger<Hashing> {
    #[verifier::type_invariant]
    spec fn inv(&self) -> bool {
        self@.well_formed()
    }

    /// The hasher that this ledger binds its solutions with.
    pub closed spec fn hasher(&self) -> Hashing {
        self.hasher
    }

    /// A ledger for the first block: nothing open, nothing accepted.
    pub fn new(hasher: Hashing) -> (ledger: Self)
        ensures
            ledger@ == LedgerState::empty(),
            ledger.hasher() == hasher,
            ledger@.well_formed(),
    {
        let ledger = ChallengeSolutionLedger {
            hasher,
            block_prefix: Vec::new(),
            capture_time: 0,
            challenges: Vec::new(),
            solutions: SolutionsBlock { solution_map: BTreeMap::new() },
        };
        assert(ledger.challenges.deep_view() =~= Seq::empty());
        assert(ledger.solutions.deep_view() =~= Map::empty());
        ledger
    }

    /// Records the canonical encoding of the header and the extrinsics of the
    /// block so far; the hash of each later solution is taken over it.
    pub fn set_block_prefix(&mut self, block_prefix: Vec<u8>)
        ensures
            final(self)@ == old(self)@.set_block_prefix(block_prefix@),
            final(self).hasher() == old(self).hasher(),
            final(self)@.well_formed(),
    {
        proof {
            use_type_invariant(&*self);
            law_recording_keeps_well_formed(self@, block_prefix@, 0);
        }
        self.block_prefix = block_prefix;
    }

    /// Records the header and the extrinsics of the block so far, by their
    /// canonical encoding.
    pub fn record_block<Header: Codec, Extrinsic: Codec>(
        &mut self,
        header: &Header,
        extrinsics: &[Extrinsic],
    )
        requires
            encodable_from::<Header, Extrinsic>(header.deep_view(), extrinsics.deep_view()),
        ensures
            final(self)@ == old(self)@.set_block_prefix(
                encoding_from::<Header, Extrinsic>(header.deep_view(), extrinsics.deep_view()),
            ),
            final(self).hasher() == old(self).hasher(),
            final(self)@.well_formed(),
    {
        self.set_block_prefix(Block::<Header, Extrinsic>::encode_from(header, extrinsics));
    }

    /// Records a reading of the block producer's clock. A reading earlier than
    /// the last one is passed over: the capture time never goes back.
    pub fn advance_clock(&mut self, now: u64)
        ensures
            final(self)@ == old(self)@.advance_clock(now),
            final(self).hasher() == old(self).hasher(),
            final(self)@.well_formed(),
    {
        proof {
            use_type_invariant(&*self);
            law_recording_keeps_well_formed(self@, Seq::empty(), now);
        }
        if now > self.capture_time {
            self.capture_time = now;
        }
    }

    /// Whether the challenge `id` is open.
    pub fn is_open(&self, id: u32) -> (open: bool)
        ensures
            open == self@.is_open(id),
    {
        let mut i: usize = 0;
        while i < self.challenges.len()
            invariant
                i <= self.challenges@.len(),
                forall|j: int| 0 <= j < i ==> (#[trigger] self@.challenges[j]).id != id,
            decreases self.challenges@.len() - i,
        {
            assert(self@.challenges[i as int].id == self.challenges@[i as int].id);
            if self.challenges[i].id == id {
                return true;
            }
            i += 1;
        }
        false
    }

    /// Opens `challenge` in the block under construction. Answers whether it
    /// was opened: a challenge whose id is open already is not opened again.
    pub fn open_challenge(&mut self, challenge: Challenge) -> (opened: bool)
        ensures
            opened == old(self)@.can_open(challenge.deep_view()),
            final(self)@ == old(self)@.open_challenge(challenge.deep_view()),
            final(self).hasher() == old(self).hasher(),
            final(self)@.well_formed(),
    {
        proof {
            use_type_invariant(&*self);
            law_opening_keeps_well_formed(self@, challenge.deep_view());
        }
        if self.is_open(challenge.id) || self.challenges.len() >= u32::MAX as usize
            || challenge.payload.len() > u32::MAX as usize {
            return false;
        }
        let ghost before = self@;
        let mut solutions = SolutionsBlock { solution_map: BTreeMap::new() };
        std::mem::swap(&mut solutions, &mut self.solutions);
        let mut challenges: Vec<Challenge> = Vec::new();
        std::mem::swap(&mut challenges, &mut self.challenges);
        challenges.push(challenge);
        assert(challenges.deep_view() =~= before.challenges.push(challenge.deep_view()));
        proof {
            let opened = before.open_challenge(challenge.deep_view());
            assert((LedgerState { solutions: Map::empty(), ..opened }).well_formed());
        }
        self.challenges = challenges;
        self.solutions = solutions;
        true
    }

    /// The solution accepted against challenge `id`, if there is one.
    pub fn solution(&self, id: u32) -> (found: Option<&Solution>)
        ensures
            match found {
                Some(solution) => self@.solutions.contains_key(id) && solution.deep_view()
                    == self@.solutions[id],
                None => !self@.solutions.contains_key(id),
            },
    {
        self.solutions.solution_map.get(&id)
    }

    /// The hash that binds a solution with this payload to the block as it
    /// stands: taken over the encoding of header and extrinsics, of the
    /// challenge list, and of the payload.
    pub fn content_hash(&self, payload: &Vec<u8>) -> (hash: [u8; 32])
        requires
            payload@.len() <= u32::MAX,
        ensures
            hash@ == self.hasher().digest(self@.hash_input(payload@)),
    {
        proof {
            use_type_invariant(self);
        }
        let mut input = bytes_copy(self.block_prefix.as_slice());
        self.challenges.encode_to(&mut input);
        assert(payload.deep_view() =~= payload@);
        assert(items_encodable::<u8>(payload@));
        payload.encode_to(&mut input);
        self.hasher.hash(input.as_slice())
    }

    /// Accepts `payload` as the solution of challenge `id`, unless the
    /// challenge is not open or has a solution already. An accepted solution
    /// carries the hash over header, extrinsics, challenge list and payload,
    /// and the block producer's capture time.
    pub fn submit_solution(&mut self, challenge_id: u32, payload: Vec<u8>) -> (outcome: Result<
        (),
        Error,
    >)
        requires
            payload@.len() <= u32::MAX,
        ensures
            outcome == old(self)@.submit_outcome(challenge_id),
            final(self)@ == old(self)@.submit(
                challenge_id,
                payload@,
                old(self).hasher().digest(old(self)@.hash_input(payload@)),
            ),
            final(self).hasher() == old(self).hasher(),
            final(self)@.well_formed(),
    {
        proof {
            use_type_invariant(&*self);
        }
        if !self.is_open(challenge_id) {
            return Err(Error::ChallengeNotFound);
        }
        if self.solutions.solution_map.contains_key(&challenge_id) {
            return Err(Error::SolutionAlreadySubmitted);
        }
        let ghost before = self@;
        let hash = self.content_hash(&payload);
        proof {
            law_submission_keeps_well_formed(before, challenge_id, payload@, hash@);
        }
        let mut solutions = SolutionsBlock { solution_map: BTreeMap::new() };
        std::mem::swap(&mut solutions, &mut self.solutions);
        proof {
            let cleared = LedgerState { solutions: Map::empty(), ..before };
            lemma_same_challenges(before, cleared);
        }
        solutions.solution_map.insert(
            challenge_id,
            Solution { solution: payload, hash, timestamp: self.capture_time },
        );
        assert(solutions.deep_view() =~= before.submit(challenge_id, payload@, hash@).solutions);
        self.solutions = solutions;
        Ok(())
    }

    /// Hands out the challenges and the solutions of the block that is being
    /// finalized, and leaves the ledger empty for the next block.
    pub fn snapshot(&mut self) -> (taken: (Vec<Challenge>, SolutionsBlock))
        ensures
            taken.0.deep_view() == old(self)@.challenges,
            taken.1.deep_view() == old(self)@.solutions,
            <Vec<Challenge> as Codec>::encodable(taken.0.deep_view()),
            SolutionsBlock::encodable(taken.1.deep_view()),
            final(self)@ == LedgerState::empty(),
            final(self).hasher() == old(self).hasher(),
            final(self)@.well_formed(),
    {
        proof {
            use_type_invariant(&*self);
            lemma_solutions_encodable(self@);
        }
        let mut solutions = SolutionsBlock { solution_map: BTreeMap::new() };
        std::mem::swap(&mut solutions, &mut self.solutions);
        proof {
            lemma_same_challenges(old(self)@, self@);
        }
        let mut challenges: Vec<Challenge> = Vec::new();
        std::mem::swap(&mut challenges, &mut self.challenges);
        assert(self.challenges.deep_view() =~= Seq::empty());
        self.block_prefix = Vec::new();
        self.capture_time = 0;
        (challenges, solutions)
    }
}

} // verus!

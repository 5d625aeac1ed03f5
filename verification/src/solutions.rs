//! Challenges, the solutions proposed against them, and the map of solutions
//! that a block carries.

use crate::assoc::{distinct_keys, has_key, lemma_to_map, to_map};
use crate::codec::Codec;
use crate::compact::{compact_encoding, encode_compact};
use crate::error::Error;
use crate::ordered::{
    ascending, entry_keys, lemma_ascending_entries_distinct, lemma_ascending_is_sorted,
    lemma_entries_are_sorted, lemma_increasing_is_ascending, lemma_sorted_entries, sorted_entries,
};
use crate::sequence::encode_items;
use std::collections::BTreeMap;
use vstd::prelude::*;
use vstd::std_specs::btree::{axiom_spec_btree_map_iter, increasing_seq, spec_btree_map_iter};
use vstd::std_specs::iter::IteratorSpec;

verus! {

/// A task that a block associates with solvable work. Its payload is opaque.
#[derive(Clone, Debug, PartialEq, Eq)]
pub struct Challenge {
    /// The id of the challenge, unique within one block.
    pub id: u32,
    /// What the challenge asks, opaque to the block.
    pub payload: Vec<u8>,
}

/// The model of a [`Challenge`].
pub struct ChallengeView {
    pub id: u32,
    pub payload: Seq<u8>,
}

impl DeepView for Challenge {
    type V = ChallengeView;

    open spec fn deep_view(&self) -> ChallengeView {
        ChallengeView { id: self.id, payload: self.payload@ }
    }
}

/// A challenge stands as its id in four bytes, then its payload behind a compact length.
impl Codec for Challenge {
    open spec fn encodable(value: ChallengeView) -> bool {
        <(u32, Vec<u8>) as Codec>::encodable((value.id, value.payload))
    }

    open spec fn encoding(value: ChallengeView) -> Seq<u8> {
        <(u32, Vec<u8>) as Codec>::encoding((value.id, value.payload))
    }

    open spec fn decoding(bytes: Seq<u8>) -> Option<(ChallengeView, nat)> {
        match <(u32, Vec<u8>) as Codec>::decoding(bytes) {
            None => None,
            Some(((id, payload), used)) => Some((ChallengeView { id, payload }, used)),
        }
    }

    proof fn lemma_round_trip(value: ChallengeView, rest: Seq<u8>) {
        <(u32, Vec<u8>) as Codec>::lemma_round_trip((value.id, value.payload), rest);
    }

    proof fn lemma_canonical(bytes: Seq<u8>) {
        <(u32, Vec<u8>) as Codec>::lemma_canonical(bytes);
    }

    fn is_encodable(&self) -> (yes: bool) {
        assert(self.payload.deep_view() =~= self.payload@);
        self.payload.is_encodable()
    }

    fn encode_to(&self, dest: &mut Vec<u8>) {
        assert(self.payload.deep_view() =~= self.payload@);
        self.id.encode_to(dest);
        self.payload.encode_to(dest);
        assert(final(dest)@ =~= old(dest)@ + Self::encoding(self.deep_view()));
    }

    fn decode(bytes: &[u8]) -> (read: Result<(Challenge, usize), Error>) {
        match <(u32, Vec<u8>) as Codec>::decode(bytes) {
            Err(e) => Err(e),
            Ok(((id, payload), used)) => {
                assert(payload.deep_view() =~= payload@);
                Ok((Challenge { id, payload }, used))
            },
        }
    }
}

/// A solver's answer to one challenge, bound to the block by a hash and stamped
/// with the time of its acceptance.
#[derive(Clone, Debug, PartialEq, Eq)]
pub struct Solution {
    /// The solution itself, as the solver encrypted it.
    pub solution: Vec<u8>,
    /// The hash over header, extrinsics, challenge list and solution.
    pub hash: [u8; 32],
    /// When the block producer accepted the solution.
    pub timestamp: u64,
}

/// The model of a [`Solution`].
pub struct SolutionView {
    pub solution: Seq<u8>,
    pub hash: Seq<u8>,
    pub timestamp: u64,
}

impl DeepView for Solution {
    type V = SolutionView;

    open spec fn deep_view(&self) -> SolutionView {
        SolutionView { solution: self.solution@, hash: self.hash@, timestamp: self.timestamp }
    }
}

/// A solution stands as its payload behind a compact length, then the 32 bytes
/// of its hash, then its timestamp in eight bytes.
impl Codec for Solution {
    open spec fn encodable(value: SolutionView) -> bool {
        <((Vec<u8>, [u8; 32]), u64) as Codec>::encodable(
            ((value.solution, value.hash), value.timestamp),
        )
    }

    open spec fn encoding(value: SolutionView) -> Seq<u8> {
        <((Vec<u8>, [u8; 32]), u64) as Codec>::encoding(
            ((value.solution, value.hash), value.timestamp),
        )
    }

    open spec fn decoding(bytes: Seq<u8>) -> Option<(SolutionView, nat)> {
        match <((Vec<u8>, [u8; 32]), u64) as Codec>::decoding(bytes) {
            None => None,
            Some((((solution, hash), timestamp), used)) => Some(
                (SolutionView { solution, hash, timestamp }, used),
            ),
        }
    }

    proof fn lemma_round_trip(value: SolutionView, rest: Seq<u8>) {
        <((Vec<u8>, [u8; 32]), u64) as Codec>::lemma_round_trip(
            ((value.solution, value.hash), value.timestamp),
            rest,
        );
    }

    proof fn lemma_canonical(bytes: Seq<u8>) {
        <((Vec<u8>, [u8; 32]), u64) as Codec>::lemma_canonical(bytes);
    }

    fn is_encodable(&self) -> (yes: bool) {
        assert(self.solution.deep_view() =~= self.solution@);
        assert(self.hash.deep_view() =~= self.hash@);
        self.solution.is_encodable()
    }

    fn encode_to(&self, dest: &mut Vec<u8>) {
        assert(self.solution.deep_view() =~= self.solution@);
        assert(self.hash.deep_view() =~= self.hash@);
        self.solution.encode_to(dest);
        self.hash.encode_to(dest);
        self.timestamp.encode_to(dest);
        assert(final(dest)@ =~= old(dest)@ + Self::encoding(self.deep_view()));
    }

    fn decode(bytes: &[u8]) -> (read: Result<(Solution, usize), Error>) {
        match <((Vec<u8>, [u8; 32]), u64) as Codec>::decode(bytes) {
            Err(e) => Err(e),
            Ok((((solution, hash), timestamp), used)) => {
                assert(solution.deep_view() =~= solution@);
                assert(hash.deep_view() =~= hash@);
                Ok((Solution { solution, hash, timestamp }, used))
            },
        }
    }
}

/// The solutions accepted into one block, by challenge id.
#[derive(Clone, Debug, PartialEq, Eq)]
pub struct SolutionsBlock {
    /// The solution proposed for each solved challenge.
    pub solution_map: BTreeMap<u32, Solution>,
}

impl DeepView for SolutionsBlock {
    type V = Map<u32, SolutionView>;

    open spec fn deep_view(&self) -> Map<u32, SolutionView> {
        self.solution_map@.map_values(|s: Solution| s.deep_view())
    }
}

/// What a walk over the map yields, as entries of the model.
spec fn walked(all: Seq<(&u32, &Solution)>) -> Seq<(u32, SolutionView)> {
    all.map_values(|kv: (&u32, &Solution)| (*kv.0, kv.1.deep_view()))
}

/// A walk over the map yields its entries by ascending id.
proof fn lemma_walk_is_sorted(block: &SolutionsBlock, all: Seq<(&u32, &Solution)>)
    requires
        all == spec_btree_map_iter(&block.solution_map).remaining(),
        increasing_seq(all.map_values(|kv: (&u32, &Solution)| *kv.0)),
    ensures
        walked(all) == sorted_entries(block.deep_view()),
        all.len() == block.solution_map@.dom().len(),
{
    let model = block.deep_view();
    let entries = walked(all);
    axiom_spec_btree_map_iter(&block.solution_map);
    let keys = all.map_values(|kv: (&u32, &Solution)| *kv.0);
    lemma_increasing_is_ascending(keys);
    assert forall|k: u32| model.dom().contains(k) <==> keys.contains(k) by {
        if model.dom().contains(k) {
            assert(all.contains((&k, &block.solution_map@[k])));
            let i = choose|i: int| 0 <= i < all.len() && all[i] == (&k, &block.solution_map@[k]);
            assert(keys[i] == k);
        }
        if keys.contains(k) {
            let i = choose|i: int| 0 <= i < keys.len() && keys[i] == k;
            assert(block.solution_map@.contains_key(*all[i].0));
        }
    }
    lemma_ascending_is_sorted(keys, model.dom());
    assert forall|i: int| 0 <= i < entries.len() implies entries[i] == sorted_entries(model)[i] by {
        assert(block.solution_map@.contains_key(*all[i].0) && block.solution_map@[*all[i].0]
            == *all[i].1);
    }
    assert(entries =~= sorted_entries(model));
}

/// Whether the keys of the entries ascend from each entry to the next.
fn keys_ascend(entries: &Vec<(u32, Solution)>) -> (ascend: bool)
    ensures
        ascend == ascending(entry_keys(entries.deep_view())),
{
    let ghost keys = entry_keys(entries.deep_view());
    let mut i: usize = 1;
    while i < entries.len()
        invariant
            1 <= i,
            keys == entry_keys(entries.deep_view()),
            keys.len() == entries@.len(),
            forall|j: int| 0 <= j < entries@.len() ==> keys[j] == (#[trigger] entries@[j]).0,
            forall|a: int, b: int| 0 <= a < b < i && b < keys.len() ==> keys[a] < keys[b],
        decreases entries.len() - i,
    {
        if entries[i - 1].0 >= entries[i].0 {
            assert(!(keys[i - 1] < keys[i as int]));
            return false;
        }
        assert forall|a: int, b: int| 0 <= a < b < i + 1 && b < keys.len() implies keys[a]
            < keys[b] by {
            if b == i && a < i - 1 {
                assert(keys[a] < keys[i - 1]);
            }
        }
        i += 1;
    }
    true
}

/// The map stands as the count of its entries in compact form, then the
/// entries by ascending challenge id: the id in four bytes, then the solution.
/// Entries in any other order are not an encoding.
impl Codec for SolutionsBlock {
    open spec fn encodable(value: Map<u32, SolutionView>) -> bool {
        <Vec<(u32, Solution)> as Codec>::encodable(sorted_entries(value))
    }

    open spec fn encoding(value: Map<u32, SolutionView>) -> Seq<u8> {
        <Vec<(u32, Solution)> as Codec>::encoding(sorted_entries(value))
    }

    open spec fn decoding(bytes: Seq<u8>) -> Option<(Map<u32, SolutionView>, nat)> {
        match <Vec<(u32, Solution)> as Codec>::decoding(bytes) {
            None => None,
            Some((entries, used)) => if ascending(entry_keys(entries)) {
                Some((to_map(entries), used))
            } else {
                None
            },
        }
    }

    proof fn lemma_round_trip(value: Map<u32, SolutionView>, rest: Seq<u8>) {
        <Vec<(u32, Solution)> as Codec>::lemma_round_trip(sorted_entries(value), rest);
        lemma_sorted_entries(value);
    }

    proof fn lemma_canonical(bytes: Seq<u8>) {
        <Vec<(u32, Solution)> as Codec>::lemma_canonical(bytes);
        if let Some((entries, used)) = <Vec<(u32, Solution)> as Codec>::decoding(bytes) {
            if ascending(entry_keys(entries)) {
                lemma_entries_are_sorted(entries);
            }
        }
    }

    fn is_encodable(&self) -> (yes: bool) {
        let iter = self.solution_map.iter();
        let ghost all = iter.remaining();
        let ghost entries = walked(all);
        proof {
            lemma_walk_is_sorted(self, all);
        }
        if self.solution_map.len() > u32::MAX as usize {
            return false;
        }
        for kv in it: iter
            invariant
                all == it.seq(),
                entries == walked(all),
                entries == sorted_entries(self.deep_view()),
                forall|j: int|
                    0 <= j < it.index() ==> <(u32, Solution) as Codec>::encodable(#[trigger] entries[j]),
        {
            assert(entries[it.index() as int] == (*kv.0, kv.1.deep_view()));
            if !kv.1.is_encodable() {
                assert(!<(u32, Solution) as Codec>::encodable(entries[it.index() as int]));
                return false;
            }
        }
        true
    }

    fn encode_to(&self, dest: &mut Vec<u8>) {
        let iter = self.solution_map.iter();
        let ghost all = iter.remaining();
        let ghost entries = walked(all);
        proof {
            lemma_walk_is_sorted(self, all);
        }
        encode_compact(self.solution_map.len() as u32, dest);
        for kv in it: iter
            invariant
                all == it.seq(),
                entries == walked(all),
                <Vec<(u32, Solution)> as Codec>::encodable(entries),
                dest@ == old(dest)@ + compact_encoding(entries.len() as u32) + encode_items::<
                    (u32, Solution),
                >(entries.take(it.index() as int)),
        {
            let ghost i = it.index() as int;
            assert(entries[i] == (*kv.0, kv.1.deep_view()));
            assert(<(u32, Solution) as Codec>::encodable(entries[i]));
            kv.0.encode_to(dest);
            kv.1.encode_to(dest);
            proof {
                let next = entries.take(i + 1);
                assert(next.drop_last() =~= entries.take(i));
                assert(next.last() == entries[i]);
                assert(dest@ =~= old(dest)@ + compact_encoding(entries.len() as u32) + encode_items::<
                    (u32, Solution),
                >(next));
            }
        }
        assert(entries.take(entries.len() as int) =~= entries);
    }

    fn decode(bytes: &[u8]) -> (read: Result<(SolutionsBlock, usize), Error>) {
        match <Vec<(u32, Solution)> as Codec>::decode(bytes) {
            Err(e) => Err(e),
            Ok((entries, used)) => {
                if !keys_ascend(&entries) {
                    return Err(Error::EncodingError);
                }
                let ghost all = entries.deep_view();
                let mut entries = entries;
                let mut solution_map: BTreeMap<u32, Solution> = BTreeMap::new();
                proof {
                    lemma_ascending_entries_distinct(all);
                    lemma_to_map(all);
                }
                loop
                    invariant
                        entries.deep_view() == all.take(entries@.len() as int),
                        entries@.len() <= all.len(),
                        distinct_keys(all),
                        forall|k: u32| #[trigger]
                            solution_map@.contains_key(k) <==> exists|i: int|
                                entries@.len() <= i < all.len() && (#[trigger] all[i]).0 == k,
                        forall|i: int|
                            entries@.len() <= i < all.len() ==> solution_map@[(#[trigger] all[i]).0].deep_view()
                                == all[i].1,
                    ensures
                        entries@.len() == 0,
                    decreases entries@.len(),
                {
                    let ghost before = solution_map@;
                    let ghost n = entries@.len() as int;
                    match entries.pop() {
                        None => {
                            break ;
                        },
                        Some((key, solution)) => {
                            assert(all[n - 1] == (key, solution.deep_view())) by {
                                assert(all.take(n)[n - 1] == all[n - 1]);
                            }
                            solution_map.insert(key, solution);
                            assert(entries.deep_view() =~= all.take(n - 1));
                            assert forall|k: u32| #[trigger]
                                solution_map@.contains_key(k) <==> exists|i: int|
                                    n - 1 <= i < all.len() && (#[trigger] all[i]).0 == k by {
                                if before.contains_key(k) {
                                    let i = choose|i: int|
                                        n <= i < all.len() && (#[trigger] all[i]).0 == k;
                                    assert(n - 1 <= i < all.len() && all[i].0 == k);
                                }
                            }
                            assert forall|i: int| n - 1 <= i < all.len() implies solution_map@[(
                            #[trigger] all[i]).0].deep_view() == all[i].1 by {
                                if i >= n {
                                    assert(all[n - 1].0 != all[i].0);
                                }
                            }
                        },
                    }
                }
                let block = SolutionsBlock { solution_map };
                proof {
                    let model = block.deep_view();
                    assert forall|k: u32| model.contains_key(k) <==> to_map(all).contains_key(k) by {
                        if has_key(all, k) {
                            let i = choose|i: int| 0 <= i < all.len() && (#[trigger] all[i]).0 == k;
                            assert(block.solution_map@.contains_key(k));
                        }
                    }
                    assert forall|k: u32| model.contains_key(k) implies model[k] == to_map(all)[k] by {
                        let i = choose|i: int| 0 <= i < all.len() && (#[trigger] all[i]).0 == k;
                        assert(to_map(all)[all[i].0] == all[i].1);
                    }
                    assert(model =~= to_map(all));
                }
                Ok((block, used))
            },
        }
    }
}

} // verus!

//! A block together with the evidence of its finality.

use crate::codec::Codec;
use crate::error::Error;
use sp_runtime::Justifications;
use vstd::prelude::*;

verus! {

/// The justifications of `sp-runtime`: the finality evidence that consensus
/// engines attach to a block.
#[verifier::external_type_specification]
#[verifier::external_body]
pub struct ExJustifications(Justifications);

/// What a set of justifications holds: for each entry the four bytes that
/// name the consensus engine, and the encoded proof of that engine, in the
/// order of the entries.
pub uninterp spec fn justification_entries(justifications: Justifications) -> Seq<
    (Seq<u8>, Seq<u8>),
>;

/// Calls `Justifications::new` of `sp-runtime`. Claimed: the justifications
/// hold the given entries, in their order.
#[verifier::external_body]
fn justifications_of(entries: Vec<([u8; 4], Vec<u8>)>) -> (justifications: Justifications)
    ensures
        justification_entries(justifications) == entries.deep_view(),
{
    Justifications::new(entries)
}

/// Calls `Justifications::iter` of `sp-runtime` and copies what it yields.
/// Claimed: these are the entries that the justifications hold, in their order.
#[verifier::external_body]
fn entries_of(justifications: &Justifications) -> (entries: Vec<([u8; 4], Vec<u8>)>)
    ensures
        entries.deep_view() == justification_entries(*justifications),
{
    justifications.iter().cloned().collect()
}

/// A block and the justifications that the finality subsystem produced for
/// it, if it has produced any.
#[derive(PartialEq, Eq, Clone, Debug)]
pub struct SignedBlock<Block> {
    /// Full block.
    pub block: Block,
    /// Block justification.
    pub justifications: Option<Justifications>,
}

/// The model of a [`SignedBlock`].
pub struct SignedBlockView<Block> {
    pub block: Block,
    pub justifications: Option<Seq<(Seq<u8>, Seq<u8>)>>,
}

impl<Block: DeepView> DeepView for SignedBlock<Block> {
    type V = SignedBlockView<Block::V>;

    open spec fn deep_view(&self) -> SignedBlockView<Block::V> {
        SignedBlockView {
            block: self.block.deep_view(),
            justifications: match self.justifications {
                None => None,
                Some(justifications) => Some(justification_entries(justifications)),
            },
        }
    }
}

/// A signed block stands as its block, then one byte that tells whether
/// justifications follow, then the justifications: their compact count and,
/// for each, the four bytes of the engine and the proof behind a compact length.
impl<Block: Codec> Codec for SignedBlock<Block> {
    open spec fn encodable(value: SignedBlockView<<Block as DeepView>::V>) -> bool {
        <(Block, Option<Vec<([u8; 4], Vec<u8>)>>) as Codec>::encodable(
            (value.block, value.justifications),
        )
    }

    open spec fn encoding(value: SignedBlockView<<Block as DeepView>::V>) -> Seq<u8> {
        <(Block, Option<Vec<([u8; 4], Vec<u8>)>>) as Codec>::encoding(
            (value.block, value.justifications),
        )
    }

    open spec fn decoding(bytes: Seq<u8>) -> Option<
        (SignedBlockView<<Block as DeepView>::V>, nat),
    > {
        match <(Block, Option<Vec<([u8; 4], Vec<u8>)>>) as Codec>::decoding(bytes) {
            None => None,
            Some(((block, justifications), used)) => Some(
                (SignedBlockView { block, justifications }, used),
            ),
        }
    }

    proof fn lemma_round_trip(value: SignedBlockView<<Block as DeepView>::V>, rest: Seq<u8>) {
        <(Block, Option<Vec<([u8; 4], Vec<u8>)>>) as Codec>::lemma_round_trip(
            (value.block, value.justifications),
            rest,
        );
    }

    proof fn lemma_canonical(bytes: Seq<u8>) {
        <(Block, Option<Vec<([u8; 4], Vec<u8>)>>) as Codec>::lemma_canonical(bytes);
    }

    fn is_encodable(&self) -> (yes: bool) {
        let entries = match &self.justifications {
            None => None,
            Some(justifications) => Some(entries_of(justifications)),
        };
        self.block.is_encodable() && entries.is_encodable()
    }

    fn encode_to(&self, dest: &mut Vec<u8>) {
        let entries = match &self.justifications {
            None => None,
            Some(justifications) => Some(entries_of(justifications)),
        };
        self.block.encode_to(dest);
        entries.encode_to(dest);
        assert(final(dest)@ =~= old(dest)@ + Self::encoding(self.deep_view()));
    }

    fn decode(bytes: &[u8]) -> (read: Result<(SignedBlock<Block>, usize), Error>) {
        match <(Block, Option<Vec<([u8; 4], Vec<u8>)>>) as Codec>::decode(bytes) {
            Err(e) => Err(e),
            Ok(((block, entries), used)) => {
                let justifications = match entries {
                    None => None,
                    Some(entries) => Some(justifications_of(entries)),
                };
                Ok((SignedBlock { block, justifications }, used))
            },
        }
    }
}

} // verus!

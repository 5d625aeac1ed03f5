//! The block: a header, its extrinsics, the challenges solved in the block,
//! and the encoded map of the solutions proposed for them.

use crate::codec::{decode_all, decoding_all, encode, law_decode_encode, law_encode_decode, Codec};
use crate::compact::encode_compact;
use crate::error::Error;
use crate::hashing::ContentHasher;
use crate::ledger::{ChallengeSolutionLedger, LedgerState};
use crate::sequence::encode_items_to;
use crate::solutions::{Challenge, SolutionsBlock};
use vstd::prelude::*;

verus! {

/// A block of the chain.
#[derive(PartialEq, Eq, Clone, Debug)]
pub struct Block<Header, Extrinsic> {
    /// The block header.
    pub header: Header,
    /// The accompanying extrinsics.
    pub extrinsics: Vec<Extrinsic>,
    /// The encoded list of the challenges that are solved in this block.
    pub challenges: Vec<u8>,
    /// The encoded map of the solutions proposed for those challenges.
    pub proposed_solutions: Vec<u8>,
}

/// The model of a [`Block`].
pub struct BlockView<Header, Extrinsic> {
    pub header: Header,
    pub extrinsics: Seq<Extrinsic>,
    pub challenges: Seq<u8>,
    pub proposed_solutions: Seq<u8>,
}

impl<Header: DeepView, Extrinsic: DeepView> DeepView for Block<Header, Extrinsic> {
    type V = BlockView<Header::V, Extrinsic::V>;

    open spec fn deep_view(&self) -> BlockView<Header::V, Extrinsic::V> {
        BlockView {
            header: self.header.deep_view(),
            extrinsics: self.extrinsics.deep_view(),
            challenges: self.challenges@,
            proposed_solutions: self.proposed_solutions@,
        }
    }
}

impl<Header, Extrinsic> Block<Header, Extrinsic> {
    /// The block is made of `header` and `extrinsics` and carries neither
    /// challenges nor solutions.
    pub open spec fn is_new(self, header: Header, extrinsics: Vec<Extrinsic>) -> bool {
        &&& self.header == header
        &&& self.extrinsics == extrinsics
        &&& self.challenges@ == Seq::<u8>::empty()
        &&& self.proposed_solutions@ == Seq::<u8>::empty()
    }

    /// The header and the extrinsics of the block.
    pub open spec fn parts(self) -> (Header, Vec<Extrinsic>) {
        (self.header, self.extrinsics)
    }

    /// The header of the block.
    pub fn header(&self) -> (header: &Header)
        ensures
            *header == self.header,
    {
        &self.header
    }

    /// The extrinsics of the block, in their order.
    pub fn extrinsics(&self) -> (extrinsics: &[Extrinsic])
        ensures
            extrinsics@ == self.extrinsics@,
    {
        self.extrinsics.as_slice()
    }

    /// Splits the block into its header and its extrinsics. The challenges and
    /// the proposed solutions are dropped.
    pub fn deconstruct(self) -> (parts: (Header, Vec<Extrinsic>))
        ensures
            parts == self.parts(),
    {
        (self.header, self.extrinsics)
    }

    /// A block of `header` and `extrinsics`, with no challenges and no
    /// proposed solutions.
    pub fn new(header: Header, extrinsics: Vec<Extrinsic>) -> (block: Self)
        ensures
            block.is_new(header, extrinsics),
    {
        let challenges = Vec::new();
        let proposed_solutions = Vec::new();
        Block { header, extrinsics, challenges, proposed_solutions }
    }

    /// Assembles the block that is being finalized: the header, the
    /// extrinsics, and the challenges and solutions that the ledger
    /// accumulated, each in its encoding. The ledger is left empty for the
    /// next block.
    pub fn assemble<Hashing: ContentHasher>(
        header: Header,
        extrinsics: Vec<Extrinsic>,
        ledger: &mut ChallengeSolutionLedger<Hashing>,
    ) -> (block: Self)
        ensures
            block.header == header,
            block.extrinsics == extrinsics,
            block.challenges@ == <Vec<Challenge> as Codec>::encoding(old(ledger)@.challenges),
            block.proposed_solutions@ == SolutionsBlock::encoding(old(ledger)@.solutions),
            decoding_all::<Vec<Challenge>>(block.challenges@) == Some(old(ledger)@.challenges),
            decoding_all::<SolutionsBlock>(block.proposed_solutions@) == Some(
                old(ledger)@.solutions,
            ),
            final(ledger)@ == LedgerState::empty(),
            final(ledger).hasher() == old(ledger).hasher(),
    {
        let (open, solved) = ledger.snapshot();
        proof {
            law_decode_encode::<Vec<Challenge>>(open.deep_view());
            law_decode_encode::<SolutionsBlock>(solved.deep_view());
        }
        let challenges = encode(&open);
        let proposed_solutions = encode(&solved);
        Block { header, extrinsics, challenges, proposed_solutions }
    }

    /// The challenges that are solved in this block, decoded from the block.
    pub fn decode_challenges(&self) -> (decoded: Result<Vec<Challenge>, Error>)
        ensures
            match decoded {
                Ok(challenges) => decoding_all::<Vec<Challenge>>(self.challenges@) == Some(
                    challenges.deep_view(),
                ),
                Err(e) => e == Error::EncodingError && decoding_all::<Vec<Challenge>>(
                    self.challenges@,
                ) is None,
            },
    {
        decode_all(self.challenges.as_slice())
    }

    /// The solutions proposed in this block, decoded from the block.
    pub fn decode_solutions(&self) -> (decoded: Result<SolutionsBlock, Error>)
        ensures
            match decoded {
                Ok(solutions) => decoding_all::<SolutionsBlock>(self.proposed_solutions@) == Some(
                    solutions.deep_view(),
                ),
                Err(e) => e == Error::EncodingError && decoding_all::<SolutionsBlock>(
                    self.proposed_solutions@,
                ) is None,
            },
    {
        decode_all(self.proposed_solutions.as_slice())
    }
}

/// Taking a new block apart gives back the header and the extrinsics that it
/// was made of.
pub proof fn law_deconstruct_new<Header, Extrinsic>(
    block: Block<Header, Extrinsic>,
    header: Header,
    extrinsics: Vec<Extrinsic>,
)
    requires
        block.is_new(header, extrinsics),
    ensures
        block.parts() == (header, extrinsics),
{
}

/// The canonical encoding of a header and its extrinsics, which a block is
/// identified by: the header, then the extrinsics behind their compact count.
/// Challenges and proposed solutions have no part in it.
pub open spec fn encoding_from<Header: Codec, Extrinsic: Codec>(
    header: <Header as DeepView>::V,
    extrinsics: Seq<<Extrinsic as DeepView>::V>,
) -> Seq<u8> {
    <(Header, Vec<Extrinsic>) as Codec>::encoding((header, extrinsics))
}

/// Whether a header and its extrinsics can be encoded.
pub open spec fn encodable_from<Header: Codec, Extrinsic: Codec>(
    header: <Header as DeepView>::V,
    extrinsics: Seq<<Extrinsic as DeepView>::V>,
) -> bool {
    <(Header, Vec<Extrinsic>) as Codec>::encodable((header, extrinsics))
}

/// The header and the extrinsics that `bytes` are the canonical encoding of,
/// if they are one: all of `bytes` must be read.
pub open spec fn decoding_from<Header: Codec, Extrinsic: Codec>(bytes: Seq<u8>) -> Option<
    (<Header as DeepView>::V, Seq<<Extrinsic as DeepView>::V>),
> {
    decoding_all::<(Header, Vec<Extrinsic>)>(bytes)
}

/// Decoding the encoding of a header and its extrinsics gives them back.
pub proof fn law_decode_encode_from<Header: Codec, Extrinsic: Codec>(
    header: <Header as DeepView>::V,
    extrinsics: Seq<<Extrinsic as DeepView>::V>,
)
    requires
        encodable_from::<Header, Extrinsic>(header, extrinsics),
    ensures
        decoding_from::<Header, Extrinsic>(encoding_from::<Header, Extrinsic>(header, extrinsics))
            == Some((header, extrinsics)),
{
    law_decode_encode::<(Header, Vec<Extrinsic>)>((header, extrinsics));
}

/// Bytes decode to a header and extrinsics only if they are their encoding:
/// the encoding is canonical.
pub proof fn law_encode_decode_from<Header: Codec, Extrinsic: Codec>(bytes: Seq<u8>)
    ensures
        decoding_from::<Header, Extrinsic>(bytes) matches Some((header, extrinsics))
            ==> encodable_from::<Header, Extrinsic>(header, extrinsics) && encoding_from::<
            Header,
            Extrinsic,
        >(header, extrinsics) == bytes,
{
    law_encode_decode::<(Header, Vec<Extrinsic>)>(bytes);
}

impl<Header: Codec, Extrinsic: Codec> Block<Header, Extrinsic> {
    /// Encodes a header and its extrinsics: the bytes that a block is
    /// identified and hashed by.
    pub fn encode_from(header: &Header, extrinsics: &[Extrinsic]) -> (bytes: Vec<u8>)
        requires
            encodable_from::<Header, Extrinsic>(header.deep_view(), extrinsics.deep_view()),
        ensures
            bytes@ == encoding_from::<Header, Extrinsic>(
                header.deep_view(),
                extrinsics.deep_view(),
            ),
    {
        let mut bytes: Vec<u8> = Vec::new();
        header.encode_to(&mut bytes);
        encode_compact(extrinsics.len() as u32, &mut bytes);
        encode_items_to::<Extrinsic>(extrinsics, &mut bytes);
        assert(bytes@ =~= encoding_from::<Header, Extrinsic>(
            header.deep_view(),
            extrinsics.deep_view(),
        ));
        bytes
    }

    /// Decodes a header and its extrinsics from their canonical encoding.
    /// Bytes that are not such an encoding, or that go on behind one, are refused.
    pub fn decode_from(bytes: &[u8]) -> (decoded: Result<(Header, Vec<Extrinsic>), Error>)
        ensures
            match decoded {
                Ok((header, extrinsics)) => decoding_from::<Header, Extrinsic>(bytes@) == Some(
                    (header.deep_view(), extrinsics.deep_view()),
                ),
                Err(e) => e == Error::EncodingError && decoding_from::<Header, Extrinsic>(
                    bytes@,
                ) is None,
            },
    {
        decode_all::<(Header, Vec<Extrinsic>)>(bytes)
    }
}

/// A block stands as its header, its extrinsics behind their compact count,
/// the bytes of its challenges and the bytes of its proposed solutions, each of
/// the two behind a compact length.
impl<Header: Codec, Extrinsic: Codec> Codec for Block<Header, Extrinsic> {
    open spec fn encodable(
        value: BlockView<<Header as DeepView>::V, <Extrinsic as DeepView>::V>,
    ) -> bool {
        <((Header, Vec<Extrinsic>), (Vec<u8>, Vec<u8>)) as Codec>::encodable(
            ((value.header, value.extrinsics), (value.challenges, value.proposed_solutions)),
        )
    }

    open spec fn encoding(
        value: BlockView<<Header as DeepView>::V, <Extrinsic as DeepView>::V>,
    ) -> Seq<u8> {
        <((Header, Vec<Extrinsic>), (Vec<u8>, Vec<u8>)) as Codec>::encoding(
            ((value.header, value.extrinsics), (value.challenges, value.proposed_solutions)),
        )
    }

    open spec fn decoding(bytes: Seq<u8>) -> Option<
        (BlockView<<Header as DeepView>::V, <Extrinsic as DeepView>::V>, nat),
    > {
        match <((Header, Vec<Extrinsic>), (Vec<u8>, Vec<u8>)) as Codec>::decoding(bytes) {
            None => None,
            Some((((header, extrinsics), (challenges, proposed_solutions)), used)) => Some(
                (BlockView { header, extrinsics, challenges, proposed_solutions }, used),
            ),
        }
    }

    proof fn lemma_round_trip(
        value: BlockView<<Header as DeepView>::V, <Extrinsic as DeepView>::V>,
        rest: Seq<u8>,
    ) {
        <((Header, Vec<Extrinsic>), (Vec<u8>, Vec<u8>)) as Codec>::lemma_round_trip(
            ((value.header, value.extrinsics), (value.challenges, value.proposed_solutions)),
            rest,
        );
    }

    proof fn lemma_canonical(bytes: Seq<u8>) {
        <((Header, Vec<Extrinsic>), (Vec<u8>, Vec<u8>)) as Codec>::lemma_canonical(bytes);
    }

    fn is_encodable(&self) -> (yes: bool) {
        assert(self.challenges.deep_view() =~= self.challenges@);
        assert(self.proposed_solutions.deep_view() =~= self.proposed_solutions@);
        self.header.is_encodable() && self.extrinsics.is_encodable()
            && self.challenges.is_encodable() && self.proposed_solutions.is_encodable()
    }

    fn encode_to(&self, dest: &mut Vec<u8>) {
        assert(self.challenges.deep_view() =~= self.challenges@);
        assert(self.proposed_solutions.deep_view() =~= self.proposed_solutions@);
        self.header.encode_to(dest);
        self.extrinsics.encode_to(dest);
        self.challenges.encode_to(dest);
        self.proposed_solutions.encode_to(dest);
        assert(final(dest)@ =~= old(dest)@ + Self::encoding(self.deep_view()));
    }

    fn decode(bytes: &[u8]) -> (read: Result<(Block<Header, Extrinsic>, usize), Error>) {
        match <((Header, Vec<Extrinsic>), (Vec<u8>, Vec<u8>)) as Codec>::decode(bytes) {
            Err(e) => Err(e),
            Ok((((header, extrinsics), (challenges, proposed_solutions)), used)) => {
                assert(challenges.deep_view() =~= challenges@);
                assert(proposed_solutions.deep_view() =~= proposed_solutions@);
                Ok((Block { header, extrinsics, challenges, proposed_solutions }, used))
            },
        }
    }
}

} // verus!

//! The capability that a block asks of its header and its extrinsics: a
//! canonical encoding that can be read back. Implemented here for the
//! integers and byte strings that the block format is made of.

use crate::compact::{
    le_u32, le_u64, lemma_u32_le, lemma_u64_le_bytes, lemma_u64_le_value, u32_le, u64_le,
};
use crate::error::Error;
use vstd::prelude::*;
use vstd::slice::slice_subrange;

verus! {

/// A type with a canonical encoding. The encoding is stated over the value's
/// model (its deep view): `encoding` gives the bytes of a value, `decoding`
/// reads a value off the front of a byte string and says how many bytes it took.
pub trait Codec: Sized + DeepView {
    /// Whether the format can hold the value (a length must fit its prefix).
    spec fn encodable(value: <Self as DeepView>::V) -> bool;

    /// The bytes of the value.
    spec fn encoding(value: <Self as DeepView>::V) -> Seq<u8>;

    /// The value at the front of `bytes` and the number of bytes it takes, if
    /// the front of `bytes` is the encoding of a value.
    spec fn decoding(bytes: Seq<u8>) -> Option<(<Self as DeepView>::V, nat)>;

    /// What was encoded is read back, whatever follows it.
    proof fn lemma_round_trip(value: <Self as DeepView>::V, rest: Seq<u8>)
        requires
            Self::encodable(value),
        ensures
            Self::decoding(Self::encoding(value) + rest) == Some(
                (value, Self::encoding(value).len()),
            ),
    ;

    /// What is read is the encoding of the value read: no value has two encodings.
    proof fn lemma_canonical(bytes: Seq<u8>)
        ensures
            Self::decoding(bytes) matches Some((value, used)) ==> Self::encodable(value) && used
                <= bytes.len() && bytes.subrange(0, used as int) == Self::encoding(value),
    ;

    /// Whether the format can hold this value.
    fn is_encodable(&self) -> (yes: bool)
        ensures
            yes == Self::encodable(self.deep_view()),
    ;

    /// Appends the encoding of the value to `dest`.
    fn encode_to(&self, dest: &mut Vec<u8>)
        requires
            Self::encodable(self.deep_view()),
        ensures
            final(dest)@ == old(dest)@ + Self::encoding(self.deep_view()),
    ;

    /// Reads a value off the front of `bytes`: the value, and how many bytes it took.
    fn decode(bytes: &[u8]) -> (read: Result<(Self, usize), Error>)
        ensures
            match read {
                Ok((value, used)) => Self::decoding(bytes@) == Some(
                    (value.deep_view(), used as nat),
                ),
                Err(e) => e == Error::EncodingError && Self::decoding(bytes@) is None,
            },
    ;
}

/// The value that `bytes` are the encoding of, if they are one: all of
/// `bytes` must be read.
pub open spec fn decoding_all<T: Codec>(bytes: Seq<u8>) -> Option<<T as DeepView>::V> {
    match T::decoding(bytes) {
        Some((value, used)) => if used == bytes.len() {
            Some(value)
        } else {
            None
        },
        None => None,
    }
}

/// Decoding the encoding of a value gives the value back.
pub proof fn law_decode_encode<T: Codec>(value: <T as DeepView>::V)
    requires
        T::encodable(value),
    ensures
        decoding_all::<T>(T::encoding(value)) == Some(value),
{
    T::lemma_round_trip(value, Seq::empty());
    assert(T::encoding(value) + Seq::<u8>::empty() =~= T::encoding(value));
}

/// Bytes decode to a value only if they are its encoding: the encoding is
/// canonical.
pub proof fn law_encode_decode<T: Codec>(bytes: Seq<u8>)
    ensures
        decoding_all::<T>(bytes) matches Some(value) ==> T::encodable(value) && T::encoding(value)
            == bytes,
{
    T::lemma_canonical(bytes);
    assert(bytes.subrange(0, bytes.len() as int) =~= bytes);
}

/// The encoding of `value`.
pub fn encode<T: Codec>(value: &T) -> (bytes: Vec<u8>)
    requires
        T::encodable(value.deep_view()),
    ensures
        bytes@ == T::encoding(value.deep_view()),
{
    let mut bytes: Vec<u8> = Vec::new();
    value.encode_to(&mut bytes);
    assert(bytes@ =~= T::encoding(value.deep_view()));
    bytes
}

/// Decodes the value that `bytes` are the encoding of. Bytes that are no
/// encoding, or that go on behind one, are refused.
pub fn decode_all<T: Codec>(bytes: &[u8]) -> (decoded: Result<T, Error>)
    ensures
        match decoded {
            Ok(value) => decoding_all::<T>(bytes@) == Some(value.deep_view()),
            Err(e) => e == Error::EncodingError && decoding_all::<T>(bytes@) is None,
        },
{
    match T::decode(bytes) {
        Err(e) => Err(e),
        Ok((value, used)) => if used == bytes.len() {
            Ok(value)
        } else {
            Err(Error::EncodingError)
        },
    }
}

impl Codec for u8 {
    open spec fn encodable(value: u8) -> bool {
        true
    }

    open spec fn encoding(value: u8) -> Seq<u8> {
        seq![value]
    }

    open spec fn decoding(bytes: Seq<u8>) -> Option<(u8, nat)> {
        if bytes.len() >= 1 {
            Some((bytes[0], 1))
        } else {
            None
        }
    }

    proof fn lemma_round_trip(value: u8, rest: Seq<u8>) {
        assert((seq![value] + rest)[0] == value);
    }

    proof fn lemma_canonical(bytes: Seq<u8>) {
        if bytes.len() >= 1 {
            assert(bytes.subrange(0, 1) =~= seq![bytes[0]]);
        }
    }

    fn is_encodable(&self) -> (yes: bool) {
        true
    }

    fn encode_to(&self, dest: &mut Vec<u8>) {
        dest.push(*self);
        assert(final(dest)@ =~= old(dest)@ + seq![*self]);
    }

    fn decode(bytes: &[u8]) -> (read: Result<(u8, usize), Error>) {
        if bytes.len() >= 1 {
            Ok((bytes[0], 1))
        } else {
            Err(Error::EncodingError)
        }
    }
}

impl Codec for u32 {
    open spec fn encodable(value: u32) -> bool {
        true
    }

    open spec fn encoding(value: u32) -> Seq<u8> {
        u32_le(value)
    }

    open spec fn decoding(bytes: Seq<u8>) -> Option<(u32, nat)> {
        if bytes.len() >= 4 {
            Some((le_u32(bytes), 4))
        } else {
            None
        }
    }

    proof fn lemma_round_trip(value: u32, rest: Seq<u8>) {
        let bytes = u32_le(value) + rest;
        lemma_u32_le(value, bytes);
        assert(bytes.subrange(0, 4) =~= u32_le(value));
    }

    proof fn lemma_canonical(bytes: Seq<u8>) {
        lemma_u32_le(0, bytes);
    }

    fn is_encodable(&self) -> (yes: bool) {
        true
    }

    fn encode_to(&self, dest: &mut Vec<u8>) {
        let value = *self;
        dest.push((value % 256) as u8);
        dest.push((value / 0x100 % 256) as u8);
        dest.push((value / 0x1_0000 % 256) as u8);
        dest.push((value / 0x100_0000) as u8);
        proof {
            reveal(u32_le);
        }
        assert(final(dest)@ =~= old(dest)@ + u32_le(value));
    }

    fn decode(bytes: &[u8]) -> (read: Result<(u32, usize), Error>) {
        if bytes.len() >= 4 {
            let value: u32 = bytes[0] as u32 + 0x100 * (bytes[1] as u32) + 0x1_0000 * (
            bytes[2] as u32) + 0x100_0000 * (bytes[3] as u32);
            proof {
                reveal(le_u32);
            }
            Ok((value, 4))
        } else {
            Err(Error::EncodingError)
        }
    }
}

impl Codec for u64 {
    open spec fn encodable(value: u64) -> bool {
        true
    }

    open spec fn encoding(value: u64) -> Seq<u8> {
        u64_le(value)
    }

    open spec fn decoding(bytes: Seq<u8>) -> Option<(u64, nat)> {
        if bytes.len() >= 8 {
            Some((le_u64(bytes), 8))
        } else {
            None
        }
    }

    proof fn lemma_round_trip(value: u64, rest: Seq<u8>) {
        let bytes = u64_le(value) + rest;
        lemma_u64_le_value(value);
        lemma_u64_le_bytes(bytes);
        assert(bytes.subrange(0, 8) =~= u64_le(value));
    }

    proof fn lemma_canonical(bytes: Seq<u8>) {
        if bytes.len() >= 8 {
            lemma_u64_le_bytes(bytes);
        }
    }

    fn is_encodable(&self) -> (yes: bool) {
        true
    }

    fn encode_to(&self, dest: &mut Vec<u8>) {
        let low: u32 = (*self % 0x1_0000_0000) as u32;
        let high: u32 = (*self / 0x1_0000_0000) as u32;
        low.encode_to(dest);
        high.encode_to(dest);
        assert(final(dest)@ =~= old(dest)@ + u64_le(*self));
    }

    fn decode(bytes: &[u8]) -> (read: Result<(u64, usize), Error>) {
        if bytes.len() >= 8 {
            let low: u64 = bytes[0] as u64 + 0x100 * (bytes[1] as u64) + 0x1_0000 * (
            bytes[2] as u64) + 0x100_0000 * (bytes[3] as u64);
            let high: u64 = bytes[4] as u64 + 0x100 * (bytes[5] as u64) + 0x1_0000 * (
            bytes[6] as u64) + 0x100_0000 * (bytes[7] as u64);
            proof {
                reveal(le_u32);
                let tail = bytes@.skip(4);
                assert(tail[0] == bytes@[4] && tail[1] == bytes@[5] && tail[2] == bytes@[6] && tail[3]
                    == bytes@[7]);
            }
            Ok((low + 0x1_0000_0000 * high, 8))
        } else {
            Err(Error::EncodingError)
        }
    }
}

/// An array of bytes stands as its bytes, with no length before them: a
/// 256-bit digest as its 32 bytes.
impl<const N: usize> Codec for [u8; N] {
    open spec fn encodable(value: Seq<u8>) -> bool {
        value.len() == N
    }

    open spec fn encoding(value: Seq<u8>) -> Seq<u8> {
        value
    }

    open spec fn decoding(bytes: Seq<u8>) -> Option<(Seq<u8>, nat)> {
        if bytes.len() >= N {
            Some((bytes.subrange(0, N as int), N as nat))
        } else {
            None
        }
    }

    proof fn lemma_round_trip(value: Seq<u8>, rest: Seq<u8>) {
        assert((value + rest).subrange(0, N as int) =~= value);
    }

    proof fn lemma_canonical(bytes: Seq<u8>) {
    }

    fn is_encodable(&self) -> (yes: bool) {
        true
    }

    fn encode_to(&self, dest: &mut Vec<u8>) {
        let mut i: usize = 0;
        while i < N
            invariant
                i <= N,
                dest@ == old(dest)@ + self@.subrange(0, i as int),
            decreases N - i,
        {
            dest.push(self[i]);
            assert(self@.subrange(0, i + 1) =~= self@.subrange(0, i as int).push(self@[i as int]));
            i += 1;
        }
        assert(self@.subrange(0, N as int) =~= self.deep_view());
    }

    fn decode(bytes: &[u8]) -> (read: Result<([u8; N], usize), Error>) {
        if bytes.len() >= N {
            let mut array = [0u8; N];
            let mut i: usize = 0;
            while i < N
                invariant
                    i <= N,
                    bytes@.len() >= N,
                    forall|j: int| 0 <= j < i ==> array@[j] == bytes@[j],
                decreases N - i,
            {
                array[i] = bytes[i];
                i += 1;
            }
            assert(array.deep_view() =~= bytes@.subrange(0, N as int));
            Ok((array, N))
        } else {
            Err(Error::EncodingError)
        }
    }
}

/// An optional value stands as one byte, 0 or 1, and behind a 1 the value.
impl<T: Codec> Codec for Option<T> {
    open spec fn encodable(value: Option<<T as DeepView>::V>) -> bool {
        match value {
            None => true,
            Some(inner) => T::encodable(inner),
        }
    }

    open spec fn encoding(value: Option<<T as DeepView>::V>) -> Seq<u8> {
        match value {
            None => seq![0u8],
            Some(inner) => seq![1u8] + T::encoding(inner),
        }
    }

    open spec fn decoding(bytes: Seq<u8>) -> Option<(Option<<T as DeepView>::V>, nat)> {
        if bytes.len() == 0 {
            None
        } else if bytes[0] == 0 {
            Some((None, 1))
        } else if bytes[0] == 1 {
            match T::decoding(bytes.skip(1)) {
                None => None,
                Some((inner, used)) => Some((Some(inner), 1 + used)),
            }
        } else {
            None
        }
    }

    proof fn lemma_round_trip(value: Option<<T as DeepView>::V>, rest: Seq<u8>) {
        let bytes = Self::encoding(value) + rest;
        match value {
            None => {
                assert(bytes[0] == 0);
            },
            Some(inner) => {
                assert(bytes[0] == 1);
                assert(bytes.skip(1) =~= T::encoding(inner) + rest);
                T::lemma_round_trip(inner, rest);
            },
        }
    }

    proof fn lemma_canonical(bytes: Seq<u8>) {
        if bytes.len() > 0 {
            if bytes[0] == 0 {
                assert(bytes.subrange(0, 1) =~= seq![0u8]);
            } else if bytes[0] == 1 {
                let tail = bytes.skip(1);
                T::lemma_canonical(tail);
                if let Some((inner, used)) = T::decoding(tail) {
                    assert(bytes.subrange(0, (1 + used) as int) =~= seq![1u8] + tail.subrange(
                        0,
                        used as int,
                    ));
                }
            }
        }
    }

    fn is_encodable(&self) -> (yes: bool) {
        match self {
            None => true,
            Some(inner) => inner.is_encodable(),
        }
    }

    fn encode_to(&self, dest: &mut Vec<u8>) {
        match self {
            None => {
                dest.push(0);
            },
            Some(inner) => {
                dest.push(1);
                inner.encode_to(dest);
            },
        }
        assert(final(dest)@ =~= old(dest)@ + Self::encoding(self.deep_view()));
    }

    fn decode(bytes: &[u8]) -> (read: Result<(Option<T>, usize), Error>) {
        if bytes.len() == 0 {
            return Err(Error::EncodingError);
        }
        if bytes[0] == 0 {
            Ok((None, 1))
        } else if bytes[0] == 1 {
            let tail = slice_subrange(bytes, 1, bytes.len());
            assert(tail@ =~= bytes@.skip(1));
            match T::decode(tail) {
                Err(e) => Err(e),
                Ok((inner, used)) => {
                    proof {
                        T::lemma_canonical(tail@);
                    }
                    Ok((Some(inner), 1 + used))
                },
            }
        } else {
            Err(Error::EncodingError)
        }
    }
}

/// A pair stands as its first part followed by its second.
impl<A: Codec, B: Codec> Codec for (A, B) {
    open spec fn encodable(value: (<A as DeepView>::V, <B as DeepView>::V)) -> bool {
        A::encodable(value.0) && B::encodable(value.1)
    }

    open spec fn encoding(value: (<A as DeepView>::V, <B as DeepView>::V)) -> Seq<u8> {
        A::encoding(value.0) + B::encoding(value.1)
    }

    open spec fn decoding(bytes: Seq<u8>) -> Option<
        ((<A as DeepView>::V, <B as DeepView>::V), nat),
    > {
        match A::decoding(bytes) {
            None => None,
            Some((first, used)) => match B::decoding(bytes.skip(used as int)) {
                None => None,
                Some((second, more)) => Some(((first, second), used + more)),
            },
        }
    }

    proof fn lemma_round_trip(value: (<A as DeepView>::V, <B as DeepView>::V), rest: Seq<u8>) {
        let first = A::encoding(value.0);
        let second = B::encoding(value.1);
        let bytes = Self::encoding(value) + rest;
        assert(bytes =~= first + (second + rest));
        A::lemma_round_trip(value.0, second + rest);
        assert(bytes.skip(first.len() as int) =~= second + rest);
        B::lemma_round_trip(value.1, rest);
    }

    proof fn lemma_canonical(bytes: Seq<u8>) {
        A::lemma_canonical(bytes);
        if let Some((first, used)) = A::decoding(bytes) {
            let tail = bytes.skip(used as int);
            B::lemma_canonical(tail);
            if let Some((second, more)) = B::decoding(tail) {
                assert(bytes.subrange(0, (used + more) as int) =~= bytes.subrange(0, used as int)
                    + tail.subrange(0, more as int));
            }
        }
    }

    fn is_encodable(&self) -> (yes: bool) {
        self.0.is_encodable() && self.1.is_encodable()
    }

    fn encode_to(&self, dest: &mut Vec<u8>) {
        self.0.encode_to(dest);
        self.1.encode_to(dest);
        assert(final(dest)@ =~= old(dest)@ + Self::encoding(self.deep_view()));
    }

    fn decode(bytes: &[u8]) -> (read: Result<((A, B), usize), Error>) {
        match A::decode(bytes) {
            Err(e) => Err(e),
            Ok((first, used)) => {
                proof {
                    A::lemma_canonical(bytes@);
                }
                let tail = slice_subrange(bytes, used, bytes.len());
                assert(tail@ =~= bytes@.skip(used as int));
                match B::decode(tail) {
                    Err(e) => Err(e),
                    Ok((second, more)) => {
                        proof {
                            B::lemma_canonical(tail@);
                        }
                        Ok(((first, second), used + more))
                    },
                }
            },
        }
    }
}

} // verus!

//! Sequences of encodable values: the items one after another, and behind a
//! compact count where the sequence stands alone.

use crate::codec::Codec;
use crate::compact::{
    compact_decoding, compact_encoding, decode_compact, encode_compact, lemma_compact_canonical,
    lemma_compact_decoding_bound, lemma_compact_round_trip,
};
use crate::error::Error;
use vstd::prelude::*;
use vstd::slice::slice_subrange;

verus! {

/// Every item can be encoded.
pub open spec fn items_encodable<T: Codec>(items: Seq<<T as DeepView>::V>) -> bool {
    forall|i: int| 0 <= i < items.len() ==> T::encodable(#[trigger] items[i])
}

/// The encodings of the items, one after another.
pub open spec fn encode_items<T: Codec>(items: Seq<<T as DeepView>::V>) -> Seq<u8>
    decreases items.len(),
{
    if items.len() == 0 {
        Seq::empty()
    } else {
        encode_items::<T>(items.drop_last()) + T::encoding(items.last())
    }
}

/// The first `count` items at the front of `bytes`, and the number of bytes they take.
pub open spec fn decode_items<T: Codec>(bytes: Seq<u8>, count: nat) -> Option<
    (Seq<<T as DeepView>::V>, nat),
>
    decreases count,
{
    if count == 0 {
        Some((Seq::empty(), 0))
    } else {
        match decode_items::<T>(bytes, (count - 1) as nat) {
            None => None,
            Some((items, used)) => match T::decoding(bytes.skip(used as int)) {
                None => None,
                Some((item, more)) => Some((items.push(item), used + more)),
            },
        }
    }
}

/// Where fewer items cannot be read, more cannot be read either.
pub proof fn lemma_decode_items_fails_on<T: Codec>(bytes: Seq<u8>, fewer: nat, count: nat)
    requires
        fewer <= count,
        decode_items::<T>(bytes, fewer) is None,
    ensures
        decode_items::<T>(bytes, count) is None,
    decreases count,
{
    if fewer < count {
        lemma_decode_items_fails_on::<T>(bytes, fewer, (count - 1) as nat);
    }
}

/// What is read is the encoding of the items read, and lies within the input.
pub proof fn lemma_items_canonical<T: Codec>(bytes: Seq<u8>, count: nat)
    ensures
        decode_items::<T>(bytes, count) matches Some((items, used)) ==> items.len() == count
            && items_encodable::<T>(items) && used <= bytes.len() && bytes.subrange(0, used as int)
            == encode_items::<T>(items),
    decreases count,
{
    if count > 0 {
        lemma_items_canonical::<T>(bytes, (count - 1) as nat);
        if let Some((items, used)) = decode_items::<T>(bytes, (count - 1) as nat) {
            let tail = bytes.skip(used as int);
            T::lemma_canonical(tail);
            if let Some((item, more)) = T::decoding(tail) {
                let all = items.push(item);
                assert(all.drop_last() =~= items);
                assert(bytes.subrange(0, (used + more) as int) =~= bytes.subrange(0, used as int)
                    + tail.subrange(0, more as int));
            }
        } else {
        }
    } else {
        assert(bytes.subrange(0, 0) =~= Seq::<u8>::empty());
    }
}

/// The items that were encoded are read back, whatever follows them.
pub proof fn lemma_items_round_trip<T: Codec>(items: Seq<<T as DeepView>::V>, rest: Seq<u8>)
    requires
        items_encodable::<T>(items),
    ensures
        decode_items::<T>(encode_items::<T>(items) + rest, items.len()) == Some(
            (items, encode_items::<T>(items).len()),
        ),
    decreases items.len(),
{
    if items.len() > 0 {
        let front = items.drop_last();
        let last = items.last();
        let front_bytes = encode_items::<T>(front);
        let bytes = encode_items::<T>(items) + rest;
        assert(bytes =~= front_bytes + (T::encoding(last) + rest));
        lemma_items_round_trip::<T>(front, T::encoding(last) + rest);
        assert(bytes.skip(front_bytes.len() as int) =~= T::encoding(last) + rest);
        T::lemma_round_trip(last, rest);
        assert(front.push(last) =~= items);
    }
}

/// Whether every item can be encoded.
pub fn items_are_encodable<T: Codec>(items: &[T]) -> (yes: bool)
    ensures
        yes == items_encodable::<T>(items.deep_view()),
{
    let mut i: usize = 0;
    while i < items.len()
        invariant
            i <= items.len(),
            forall|j: int| 0 <= j < i ==> T::encodable(#[trigger] items.deep_view()[j]),
        decreases items.len() - i,
    {
        if !items[i].is_encodable() {
            assert(!T::encodable(items.deep_view()[i as int]));
            return false;
        }
        i += 1;
    }
    true
}

/// Appends the encodings of the items to `dest`, one after another.
pub fn encode_items_to<T: Codec>(items: &[T], dest: &mut Vec<u8>)
    requires
        items_encodable::<T>(items.deep_view()),
    ensures
        final(dest)@ == old(dest)@ + encode_items::<T>(items.deep_view()),
{
    let ghost all = items.deep_view();
    let mut i: usize = 0;
    while i < items.len()
        invariant
            i <= items.len(),
            all == items.deep_view(),
            items_encodable::<T>(all),
            dest@ == old(dest)@ + encode_items::<T>(all.take(i as int)),
        decreases items.len() - i,
    {
        assert(T::encodable(all[i as int]));
        items[i].encode_to(dest);
        proof {
            let next = all.take(i + 1);
            assert(next.drop_last() =~= all.take(i as int));
            assert(next.last() == items[i as int].deep_view());
            assert(dest@ =~= old(dest)@ + encode_items::<T>(next));
        }
        i += 1;
    }
    assert(all.take(items.len() as int) =~= all);
}

/// Reads `count` items off the front of `bytes`: the items, and how many bytes they took.
pub fn decode_items_from<T: Codec>(bytes: &[u8], count: u32) -> (read: Result<
    (Vec<T>, usize),
    Error,
>)
    ensures
        match read {
            Ok((items, used)) => decode_items::<T>(bytes@, count as nat) == Some(
                (items.deep_view(), used as nat),
            ),
            Err(e) => e == Error::EncodingError && decode_items::<T>(bytes@, count as nat) is None,
        },
{
    let mut items: Vec<T> = Vec::new();
    let mut used: usize = 0;
    let mut i: u32 = 0;
    assert(items.deep_view() =~= Seq::empty());
    while i < count
        invariant
            i <= count,
            used <= bytes.len(),
            decode_items::<T>(bytes@, i as nat) == Some((items.deep_view(), used as nat)),
        decreases count - i,
    {
        let tail = slice_subrange(bytes, used, bytes.len());
        assert(tail@ =~= bytes@.skip(used as int));
        match T::decode(tail) {
            Ok((item, more)) => {
                proof {
                    T::lemma_canonical(tail@);
                }
                let ghost before = items.deep_view();
                items.push(item);
                assert(items.deep_view() =~= before.push(item.deep_view()));
                used = used + more;
            },
            Err(_) => {
                proof {
                    lemma_decode_items_fails_on::<T>(bytes@, (i + 1) as nat, count as nat);
                }
                return Err(Error::EncodingError);
            },
        }
        i += 1;
    }
    Ok((items, used))
}

impl<T: Codec> Codec for Vec<T> {
    open spec fn encodable(value: Seq<<T as DeepView>::V>) -> bool {
        value.len() <= u32::MAX && items_encodable::<T>(value)
    }

    open spec fn encoding(value: Seq<<T as DeepView>::V>) -> Seq<u8> {
        compact_encoding(value.len() as u32) + encode_items::<T>(value)
    }

    open spec fn decoding(bytes: Seq<u8>) -> Option<(Seq<<T as DeepView>::V>, nat)> {
        match compact_decoding(bytes) {
            None => None,
            Some((count, prefix)) => match decode_items::<T>(
                bytes.skip(prefix as int),
                count as nat,
            ) {
                None => None,
                Some((items, used)) => Some((items, prefix + used)),
            },
        }
    }

    proof fn lemma_round_trip(value: Seq<<T as DeepView>::V>, rest: Seq<u8>) {
        let count = value.len() as u32;
        let prefix = compact_encoding(count);
        let bytes = Self::encoding(value) + rest;
        assert(bytes =~= prefix + (encode_items::<T>(value) + rest));
        lemma_compact_round_trip(count, encode_items::<T>(value) + rest);
        assert(bytes.skip(prefix.len() as int) =~= encode_items::<T>(value) + rest);
        lemma_items_round_trip::<T>(value, rest);
    }

    proof fn lemma_canonical(bytes: Seq<u8>) {
        lemma_compact_canonical(bytes);
        if let Some((count, prefix)) = compact_decoding(bytes) {
            let tail = bytes.skip(prefix as int);
            lemma_items_canonical::<T>(tail, count as nat);
            if let Some((items, used)) = decode_items::<T>(tail, count as nat) {
                assert(bytes.subrange(0, (prefix + used) as int) =~= bytes.subrange(0, prefix as int)
                    + tail.subrange(0, used as int));
            }
        }
    }

    fn is_encodable(&self) -> (yes: bool) {
        let items = self.as_slice();
        assert(items.deep_view() =~= self.deep_view());
        self.len() <= u32::MAX as usize && items_are_encodable::<T>(items)
    }

    fn encode_to(&self, dest: &mut Vec<u8>) {
        encode_compact(self.len() as u32, dest);
        let items = self.as_slice();
        assert(items.deep_view() =~= self.deep_view());
        encode_items_to::<T>(items, dest);
        assert(final(dest)@ =~= old(dest)@ + Self::encoding(self.deep_view()));
    }

    fn decode(bytes: &[u8]) -> (read: Result<(Vec<T>, usize), Error>) {
        match decode_compact(bytes) {
            None => Err(Error::EncodingError),
            Some((count, prefix)) => {
                proof {
                    lemma_compact_decoding_bound(bytes@);
                }
                let tail = slice_subrange(bytes, prefix, bytes.len());
                assert(tail@ =~= bytes@.skip(prefix as int));
                match decode_items_from::<T>(tail, count) {
                    Err(e) => Err(e),
                    Ok((items, used)) => {
                        proof {
                            lemma_items_canonical::<T>(tail@, count as nat);
                        }
                        Ok((items, prefix + used))
                    },
                }
            },
        }
    }
}

} // verus!

//! Properties of the wire formats that relate encoding and decoding.
use crate::basic_types::{
    all_encodable, announced, encode_items, lemma_items_err_persists, lemma_items_round_trip,
    length_prefix, parse_items, ABSENT, PRESENT,
};
use vstd::bytes::lemma_auto_spec_u32_to_from_le_bytes;
use crate::{Codec, DecodeError};
use vstd::prelude::*;

verus! {

/// Decoding the encoding of a value gives back that value and consumes every
/// byte: nothing remains.
pub proof fn round_trip<T: Codec>(m: T::Model)
    requires
        T::encodable(m),
    ensures
        T::parse(T::encoding(m)) == Ok::<(T::Model, nat), DecodeError>((m, T::encoding(m).len())),
{
    T::lemma_round_trip(m, Seq::empty());
    assert(T::encoding(m) + Seq::empty() =~= T::encoding(m));
}

/// Two values encoded back to back decode, one after the other, to the two
/// values in order, and together they consume every byte.
pub proof fn back_to_back<A: Codec, B: Codec>(a: A::Model, b: B::Model)
    requires
        A::encodable(a),
        B::encodable(b),
    ensures
        A::parse(A::encoding(a) + B::encoding(b)) == Ok::<(A::Model, nat), DecodeError>(
            (a, A::encoding(a).len()),
        ),
        B::parse((A::encoding(a) + B::encoding(b)).skip(A::encoding(a).len() as int)) == Ok::<
            (B::Model, nat),
            DecodeError,
        >((b, B::encoding(b).len())),
        A::encoding(a).len() + B::encoding(b).len() == (A::encoding(a) + B::encoding(b)).len(),
{
    A::lemma_round_trip(a, B::encoding(b));
    round_trip::<B>(b);
    assert((A::encoding(a) + B::encoding(b)).skip(A::encoding(a).len() as int) =~= B::encoding(b));
}

/// Cutting an encoding anywhere before its end leaves bytes that ask for more:
/// never a wrong value, never a rejection.
pub proof fn truncation_is_incomplete<T: Codec>(m: T::Model, k: nat)
    requires
        T::encodable(m),
        k < T::encoding(m).len(),
    ensures
        T::parse(T::encoding(m).take(k as int)) == Err::<(T::Model, nat), DecodeError>(
            DecodeError::Incomplete,
        ),
{
    T::lemma_truncated(m, k);
}

/// An optional value whose marker byte is neither `+` nor `-` is rejected.
pub proof fn bad_marker_is_invalid<T: Codec>(s: Seq<u8>)
    requires
        s.len() > 0,
        s[0] != PRESENT,
        s[0] != ABSENT,
    ensures
        Option::<T>::parse(s) == Err::<(Option<T::Model>, nat), DecodeError>(DecodeError::Invalid),
{
}

/// A text whose length prefix claims more bytes than follow it asks for more.
pub proof fn overlong_text_is_incomplete(s: Seq<u8>)
    requires
        s.len() >= 4,
        announced(s) > s.len() - 4,
    ensures
        String::parse(s) == Err::<(Seq<char>, nat), DecodeError>(DecodeError::Incomplete),
{
}


/// A sequence whose count announces more items than follow it asks for more
/// bytes.
pub proof fn short_sequence_is_incomplete<T: Codec>(ms: Seq<T::Model>, n: nat)
    requires
        all_encodable::<T>(ms),
        ms.len() < n,
        n <= u32::MAX,
    ensures
        Vec::<T>::parse(length_prefix(n) + encode_items::<T>(ms)) == Err::<
            (Seq<T::Model>, nat),
            DecodeError,
        >(DecodeError::Incomplete),
{
    lemma_auto_spec_u32_to_from_le_bytes();
    let e = encode_items::<T>(ms);
    let s = length_prefix(n) + e;
    assert(s.take(4) =~= length_prefix(n));
    assert(s.skip(4) =~= e);
    lemma_items_round_trip::<T>(ms, Seq::empty());
    assert(e + Seq::<u8>::empty() =~= e);
    assert(e.skip(e.len() as int) =~= Seq::<u8>::empty());
    T::lemma_parse_empty();
    assert(parse_items::<T>(e, ms.len() + 1) is Err);
    lemma_items_err_persists::<T>(e, ms.len() + 1, n);
}

} // verus!

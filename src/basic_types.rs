//! Wire formats of the primitive types: fixed-width little-endian integers,
//! UTF-8 text, optional values and homogeneous sequences.
use crate::{fits, write_raw, Codec, DecodeError, EncodeError, FromBytes, ToBytes};
use vstd::bytes::*;
use core::ops::RangeInclusive;
use vstd::prelude::*;
use vstd::slice::{slice_subrange, slice_to_vec};
use vstd::utf8::{decode_utf8, encode_utf8, valid_utf8};

verus! {

/// What stands in `after` once `bytes` were placed at `at` of `before`.
proof fn lemma_placed(before: Seq<u8>, after: Seq<u8>, at: int, bytes: Seq<u8>)
    requires
        0 <= at,
        at + bytes.len() <= before.len(),
        after == before.take(at) + bytes + before.skip(at + bytes.len()),
    ensures
        after.len() == before.len(),
        after.take(at) == before.take(at),
        after.subrange(at, at + bytes.len()) == bytes,
        after.skip(at + bytes.len()) == before.skip(at + bytes.len()),
{
    assert(after.take(at) =~= before.take(at));
    assert(after.subrange(at, at + bytes.len()) =~= bytes);
    assert(after.skip(at + bytes.len()) =~= before.skip(at + bytes.len()));
}

/// Writes one byte at `at` where it fits.
fn write_byte(buffer: &mut [u8], at: usize, b: u8) -> (r: Result<usize, EncodeError>)
    requires
        at <= old(buffer)@.len(),
    ensures
        final(buffer)@.len() == old(buffer)@.len(),
        r is Ok <==> fits(at as int, 1, old(buffer)@.len() as int),
        r is Ok ==> r->Ok_0 == at + 1 && final(buffer)@ == old(buffer)@.update(at as int, b),
        r is Err ==> r == Err::<usize, EncodeError>(EncodeError::BufferTooSmall) && final(buffer)@
            == old(buffer)@,
{
    if buffer.len() - at <= 1 {
        return Err(EncodeError::BufferTooSmall);
    }
    buffer[at] = b;
    Ok(at + 1)
}

/// The result of a fixed-width decoder of `w` bytes.
pub open spec fn parse_fixed<V>(s: Seq<u8>, w: nat, read: spec_fn(Seq<u8>) -> V) -> Result<
    (V, nat),
    DecodeError,
> {
    if s.len() < w {
        Err(DecodeError::Incomplete)
    } else {
        Ok((read(s.take(w as int)), w))
    }
}

impl Codec for u8 {
    type Model = u8;

    open spec fn model(&self) -> u8 {
        *self
    }

    open spec fn encodable(m: u8) -> bool {
        true
    }

    open spec fn encoding(m: u8) -> Seq<u8> {
        seq![m]
    }

    open spec fn parse(s: Seq<u8>) -> Result<(u8, nat), DecodeError> {
        parse_fixed(s, 1, |b: Seq<u8>| b[0])
    }

    proof fn lemma_round_trip(m: u8, rest: Seq<u8>) {
        assert((seq![m] + rest).take(1) =~= seq![m]);
    }

    proof fn lemma_truncated(m: u8, k: nat) {
    }

    proof fn lemma_parse_empty() {
    }

    proof fn lemma_parse_len(s: Seq<u8>) {
    }
}

impl ToBytes for u8 {
    fn encoded_len(&self) -> (r: Result<usize, EncodeError>) {
        Ok(1)
    }

    fn write_at(&self, buffer: &mut [u8], at: usize) -> (r: Result<usize, EncodeError>) {
        let r = write_byte(buffer, at, *self);
        proof {
            if r is Ok {
                assert(final(buffer)@ =~= old(buffer)@.take(at as int) + seq![*self] + old(
                    buffer,
                )@.skip(at + 1));
                lemma_placed(old(buffer)@, final(buffer)@, at as int, seq![*self]);
            }
        }
        r
    }
}

impl FromBytes for u8 {
    fn parse_at(buffer: &[u8], at: usize) -> (r: Result<(u8, usize), DecodeError>) {
        if buffer.len() - at < 1 {
            return Err(DecodeError::Incomplete);
        }
        Ok((buffer[at], at + 1))
    }
}

impl Codec for u16 {
    type Model = u16;

    open spec fn model(&self) -> u16 {
        *self
    }

    open spec fn encodable(m: u16) -> bool {
        true
    }

    open spec fn encoding(m: u16) -> Seq<u8> {
        spec_u16_to_le_bytes(m)
    }

    open spec fn parse(s: Seq<u8>) -> Result<(u16, nat), DecodeError> {
        parse_fixed(s, 2, |b: Seq<u8>| spec_u16_from_le_bytes(b))
    }

    proof fn lemma_round_trip(m: u16, rest: Seq<u8>) {
        lemma_auto_spec_u16_to_from_le_bytes();
        assert((spec_u16_to_le_bytes(m) + rest).take(2) =~= spec_u16_to_le_bytes(m));
    }

    proof fn lemma_truncated(m: u16, k: nat) {
        lemma_auto_spec_u16_to_from_le_bytes();
    }

    proof fn lemma_parse_empty() {
    }

    proof fn lemma_parse_len(s: Seq<u8>) {
    }
}

impl ToBytes for u16 {
    fn encoded_len(&self) -> (r: Result<usize, EncodeError>) {
        proof {
            lemma_auto_spec_u16_to_from_le_bytes();
        }
        Ok(2)
    }

    fn write_at(&self, buffer: &mut [u8], at: usize) -> (r: Result<usize, EncodeError>) {
        proof {
            lemma_auto_spec_u16_to_from_le_bytes();
        }
        let b = u16_to_le_bytes(*self);
        let r = write_raw(buffer, at, b.as_slice());
        proof {
            if r is Ok {
                lemma_placed(old(buffer)@, final(buffer)@, at as int, b@);
            }
        }
        r
    }
}

impl FromBytes for u16 {
    fn parse_at(buffer: &[u8], at: usize) -> (r: Result<(u16, usize), DecodeError>) {
        if buffer.len() - at < 2 {
            return Err(DecodeError::Incomplete);
        }
        let b = slice_subrange(buffer, at, at + 2);
        assert(b@ =~= buffer@.skip(at as int).take(2));
        Ok((u16_from_le_bytes(b), at + 2))
    }
}

impl Codec for u32 {
    type Model = u32;

    open spec fn model(&self) -> u32 {
        *self
    }

    open spec fn encodable(m: u32) -> bool {
        true
    }

    open spec fn encoding(m: u32) -> Seq<u8> {
        spec_u32_to_le_bytes(m)
    }

    open spec fn parse(s: Seq<u8>) -> Result<(u32, nat), DecodeError> {
        parse_fixed(s, 4, |b: Seq<u8>| spec_u32_from_le_bytes(b))
    }

    proof fn lemma_round_trip(m: u32, rest: Seq<u8>) {
        lemma_auto_spec_u32_to_from_le_bytes();
        assert((spec_u32_to_le_bytes(m) + rest).take(4) =~= spec_u32_to_le_bytes(m));
    }

    proof fn lemma_truncated(m: u32, k: nat) {
        lemma_auto_spec_u32_to_from_le_bytes();
    }

    proof fn lemma_parse_empty() {
    }

    proof fn lemma_parse_len(s: Seq<u8>) {
    }
}

impl ToBytes for u32 {
    fn encoded_len(&self) -> (r: Result<usize, EncodeError>) {
        proof {
            lemma_auto_spec_u32_to_from_le_bytes();
        }
        Ok(4)
    }

    fn write_at(&self, buffer: &mut [u8], at: usize) -> (r: Result<usize, EncodeError>) {
        proof {
            lemma_auto_spec_u32_to_from_le_bytes();
        }
        let b = u32_to_le_bytes(*self);
        let r = write_raw(buffer, at, b.as_slice());
        proof {
            if r is Ok {
                lemma_placed(old(buffer)@, final(buffer)@, at as int, b@);
            }
        }
        r
    }
}

impl FromBytes for u32 {
    fn parse_at(buffer: &[u8], at: usize) -> (r: Result<(u32, usize), DecodeError>) {
        if buffer.len() - at < 4 {
            return Err(DecodeError::Incomplete);
        }
        let b = slice_subrange(buffer, at, at + 4);
        assert(b@ =~= buffer@.skip(at as int).take(4));
        Ok((u32_from_le_bytes(b), at + 4))
    }
}

impl Codec for u64 {
    type Model = u64;

    open spec fn model(&self) -> u64 {
        *self
    }

    open spec fn encodable(m: u64) -> bool {
        true
    }

    open spec fn encoding(m: u64) -> Seq<u8> {
        spec_u64_to_le_bytes(m)
    }

    open spec fn parse(s: Seq<u8>) -> Result<(u64, nat), DecodeError> {
        parse_fixed(s, 8, |b: Seq<u8>| spec_u64_from_le_bytes(b))
    }

    proof fn lemma_round_trip(m: u64, rest: Seq<u8>) {
        lemma_auto_spec_u64_to_from_le_bytes();
        assert((spec_u64_to_le_bytes(m) + rest).take(8) =~= spec_u64_to_le_bytes(m));
    }

    proof fn lemma_truncated(m: u64, k: nat) {
        lemma_auto_spec_u64_to_from_le_bytes();
    }

    proof fn lemma_parse_empty() {
    }

    proof fn lemma_parse_len(s: Seq<u8>) {
    }
}

impl ToBytes for u64 {
    fn encoded_len(&self) -> (r: Result<usize, EncodeError>) {
        proof {
            lemma_auto_spec_u64_to_from_le_bytes();
        }
        Ok(8)
    }

    fn write_at(&self, buffer: &mut [u8], at: usize) -> (r: Result<usize, EncodeError>) {
        proof {
            lemma_auto_spec_u64_to_from_le_bytes();
        }
        let b = u64_to_le_bytes(*self);
        let r = write_raw(buffer, at, b.as_slice());
        proof {
            if r is Ok {
                lemma_placed(old(buffer)@, final(buffer)@, at as int, b@);
            }
        }
        r
    }
}

impl FromBytes for u64 {
    fn parse_at(buffer: &[u8], at: usize) -> (r: Result<(u64, usize), DecodeError>) {
        if buffer.len() - at < 8 {
            return Err(DecodeError::Incomplete);
        }
        let b = slice_subrange(buffer, at, at + 8);
        assert(b@ =~= buffer@.skip(at as int).take(8));
        Ok((u64_from_le_bytes(b), at + 8))
    }
}

/// The marker byte `+` of a present optional value.
pub const PRESENT: u8 = 43;

/// The marker byte `-` of an absent optional value.
pub const ABSENT: u8 = 45;

impl<T: Codec> Codec for Option<T> {
    type Model = Option<T::Model>;

    open spec fn model(&self) -> Option<T::Model> {
        match self {
            Some(v) => Some(v.model()),
            None => None,
        }
    }

    open spec fn encodable(m: Option<T::Model>) -> bool {
        match m {
            Some(v) => T::encodable(v),
            None => true,
        }
    }

    /// A `+` followed by the value's encoding, or a `-` alone.
    open spec fn encoding(m: Option<T::Model>) -> Seq<u8> {
        match m {
            Some(v) => seq![PRESENT] + T::encoding(v),
            None => seq![ABSENT],
        }
    }

    open spec fn parse(s: Seq<u8>) -> Result<(Option<T::Model>, nat), DecodeError> {
        if s.len() == 0 {
            Err(DecodeError::Incomplete)
        } else if s[0] == PRESENT {
            match T::parse(s.skip(1)) {
                Ok((v, k)) => Ok((Some(v), k + 1)),
                Err(e) => Err(e),
            }
        } else if s[0] == ABSENT {
            Ok((None, 1))
        } else {
            Err(DecodeError::Invalid)
        }
    }

    proof fn lemma_round_trip(m: Option<T::Model>, rest: Seq<u8>) {
        match m {
            Some(v) => {
                T::lemma_round_trip(v, rest);
                assert((seq![PRESENT] + T::encoding(v) + rest).skip(1) =~= T::encoding(v) + rest);
            },
            None => {},
        }
    }

    proof fn lemma_truncated(m: Option<T::Model>, k: nat) {
        if k > 0 {
            let v = m->Some_0;
            T::lemma_truncated(v, (k - 1) as nat);
            assert(Self::encoding(m).take(k as int).skip(1) =~= T::encoding(v).take(k - 1));
        }
    }

    proof fn lemma_parse_empty() {
    }

    proof fn lemma_parse_len(s: Seq<u8>) {
        if s.len() > 0 {
            T::lemma_parse_len(s.skip(1));
        }
    }
}

impl<T: ToBytes> ToBytes for Option<T> {
    fn encoded_len(&self) -> (r: Result<usize, EncodeError>) {
        match self {
            Some(item) => match item.encoded_len() {
                Ok(n) => {
                    if n == usize::MAX {
                        Err(EncodeError::BufferTooSmall)
                    } else {
                        Ok(n + 1)
                    }
                },
                Err(e) => Err(e),
            },
            None => Ok(1),
        }
    }

    fn write_at(&self, buffer: &mut [u8], at: usize) -> (r: Result<usize, EncodeError>) {
        match self {
            Some(item) => {
                let avail = buffer.len() - at;
                let n = match item.encoded_len() {
                    Ok(n) => n,
                    Err(e) => return Err(e),
                };
                if avail <= 1 || avail - 1 <= n {
                    return Err(EncodeError::BufferTooSmall);
                }
                let p = match write_byte(buffer, at, PRESENT) {
                    Ok(p) => p,
                    Err(e) => return Err(e),
                };
                let ghost mid = buffer@;
                let r = item.write_at(buffer, p);
                proof {
                    assert(r is Ok);
                    assert(final(buffer)@.take(at as int) =~= old(buffer)@.take(at as int)) by {
                        assert(final(buffer)@.take(at as int) =~= final(buffer)@.take(p as int).take(at as int));
                        assert(mid.take(p as int).take(at as int) =~= old(buffer)@.take(at as int));
                    }
                    let q = r->Ok_0 as int;
                    assert(final(buffer)@.subrange(at as int, q) =~= seq![PRESENT] + final(buffer)@.subrange(p as int, q)) by {
                        assert(final(buffer)@.take(p as int)[at as int] == mid[at as int]);
                    }
                    assert(final(buffer)@.skip(q) =~= old(buffer)@.skip(q)) by {
                        assert(mid.skip(p as int).skip(q - p) =~= mid.skip(q));
                        assert(old(buffer)@.skip(p as int).skip(q - p) =~= old(buffer)@.skip(q));
                    }
                }
                r
            },
            None => {
                let r = write_byte(buffer, at, ABSENT);
                proof {
                    if r is Ok {
                        assert(final(buffer)@ =~= old(buffer)@.take(at as int) + seq![ABSENT] + old(buffer)@.skip(at + 1));
                        lemma_placed(old(buffer)@, final(buffer)@, at as int, seq![ABSENT]);
                    }
                }
                r
            },
        }
    }
}

impl<T: FromBytes> FromBytes for Option<T> {
    fn parse_at(buffer: &[u8], at: usize) -> (r: Result<(Option<T>, usize), DecodeError>) {
        if at == buffer.len() {
            return Err(DecodeError::Incomplete);
        }
        let marker = buffer[at];
        if marker == PRESENT {
            assert(buffer@.skip(at as int).skip(1) =~= buffer@.skip(at + 1));
            match T::parse_at(buffer, at + 1) {
                Ok((v, p)) => Ok((Some(v), p)),
                Err(e) => Err(e),
            }
        } else if marker == ABSENT {
            Ok((None, at + 1))
        } else {
            Err(DecodeError::Invalid)
        }
    }
}

/// Relies on `String::from_utf8`: it accepts exactly the byte sequences that are
/// valid UTF-8, and the string it returns is made of those bytes.
#[verifier::external_body]
fn string_from_utf8(bytes: Vec<u8>) -> (r: Option<String>)
    ensures
        r is Some <==> valid_utf8(bytes@),
        r is Some ==> encode_utf8(r->Some_0@) == bytes@,
{
    String::from_utf8(bytes).ok()
}

/// The length prefix of a text or sequence of `n` bytes or items.
pub open spec fn length_prefix(n: nat) -> Seq<u8> {
    spec_u32_to_le_bytes(n as u32)
}

/// The count that a length prefix at the front of `s` announces.
pub open spec fn announced(s: Seq<u8>) -> nat {
    spec_u32_from_le_bytes(s.take(4)) as nat
}

pub open spec fn fits_u32(n: nat) -> bool {
    n <= u32::MAX
}

impl Codec for String {
    /// The characters of the text.
    type Model = Seq<char>;

    open spec fn model(&self) -> Seq<char> {
        self@
    }

    open spec fn encodable(m: Seq<char>) -> bool {
        fits_u32(encode_utf8(m).len())
    }

    /// The number of UTF-8 bytes, then the bytes.
    open spec fn encoding(m: Seq<char>) -> Seq<u8> {
        length_prefix(encode_utf8(m).len()) + encode_utf8(m)
    }

    open spec fn parse(s: Seq<u8>) -> Result<(Seq<char>, nat), DecodeError> {
        if s.len() < 4 {
            Err(DecodeError::Incomplete)
        } else if s.len() < 4 + announced(s) {
            Err(DecodeError::Incomplete)
        } else if valid_utf8(s.subrange(4, 4 + announced(s) as int)) {
            Ok((decode_utf8(s.subrange(4, 4 + announced(s) as int)), 4 + announced(s)))
        } else {
            Err(DecodeError::Invalid)
        }
    }

    proof fn lemma_round_trip(m: Seq<char>, rest: Seq<u8>) {
        lemma_auto_spec_u32_to_from_le_bytes();
        vstd::utf8::encode_utf8_valid_utf8(m);
        vstd::utf8::encode_utf8_decode_utf8(m);
        let b = encode_utf8(m);
        let s = length_prefix(b.len()) + b + rest;
        assert(s.take(4) =~= length_prefix(b.len()));
        assert(s.subrange(4, 4 + b.len() as int) =~= b);
    }

    proof fn lemma_truncated(m: Seq<char>, k: nat) {
        lemma_auto_spec_u32_to_from_le_bytes();
        let b = encode_utf8(m);
        let s = Self::encoding(m).take(k as int);
        if k >= 4 {
            assert(s.take(4) =~= length_prefix(b.len()));
        }
    }

    proof fn lemma_parse_empty() {
    }

    proof fn lemma_parse_len(s: Seq<u8>) {
    }
}

impl ToBytes for String {
    fn encoded_len(&self) -> (r: Result<usize, EncodeError>) {
        proof {
            lemma_auto_spec_u32_to_from_le_bytes();
        }
        let len = self.as_str().as_bytes().len();
        if len > u32::MAX as usize {
            Err(EncodeError::Unrepresentable)
        } else if len > usize::MAX - 4 {
            Err(EncodeError::BufferTooSmall)
        } else {
            Ok(len + 4)
        }
    }

    fn write_at(&self, buffer: &mut [u8], at: usize) -> (r: Result<usize, EncodeError>) {
        let bytes = self.as_str().as_bytes();
        if bytes.len() > u32::MAX as usize {
            return Err(EncodeError::Unrepresentable);
        }
        proof {
            lemma_auto_spec_u32_to_from_le_bytes();
        }
        if buffer.len() - at <= 4 || buffer.len() - at - 4 <= bytes.len() {
            return Err(EncodeError::BufferTooSmall);
        }
        let n = bytes.len() as u32;
        let p = match n.write_at(buffer, at) {
            Ok(p) => p,
            Err(e) => return Err(e),
        };
        let ghost mid = buffer@;
        let r = write_raw(buffer, p, bytes);
        proof {
            assert(r is Ok);
            assert(final(buffer)@.take(at as int) =~= old(buffer)@.take(at as int)) by {
                assert(final(buffer)@.take(at as int) =~= mid.take(at as int));
            }
            let q = r->Ok_0 as int;
            lemma_placed(mid, final(buffer)@, p as int, bytes@);
            assert(final(buffer)@.subrange(at as int, q) =~= mid.subrange(at as int, p as int) + bytes@);
            assert(final(buffer)@.skip(q) =~= old(buffer)@.skip(q)) by {
                assert(mid.skip(p as int).skip(q - p) =~= mid.skip(q));
                assert(old(buffer)@.skip(p as int).skip(q - p) =~= old(buffer)@.skip(q));
            }
        }
        r
    }
}

impl FromBytes for String {
    fn parse_at(buffer: &[u8], at: usize) -> (r: Result<(String, usize), DecodeError>) {
        let (n, p) = match u32::parse_at(buffer, at) {
            Ok(x) => x,
            Err(e) => return Err(e),
        };
        let len = n as usize;
        if buffer.len() - p < len {
            return Err(DecodeError::Incomplete);
        }
        let ghost s = buffer@.skip(at as int);
        let b = slice_subrange(buffer, p, p + len);
        assert(b@ =~= s.subrange(4, 4 + announced(s) as int));
        match string_from_utf8(slice_to_vec(b)) {
            Some(text) => {
                proof {
                    vstd::utf8::encode_utf8_decode_utf8(text@);
                }
                Ok((text, p + len))
            },
            None => Err(DecodeError::Invalid),
        }
    }
}

/// The models of a sequence of values.
pub open spec fn models_of<T: Codec>(v: Seq<T>) -> Seq<T::Model> {
    v.map_values(|x: T| x.model())
}

/// The encodings of `ms`, concatenated in order.
pub open spec fn encode_items<T: Codec>(ms: Seq<T::Model>) -> Seq<u8>
    decreases ms.len(),
{
    if ms.len() == 0 {
        Seq::empty()
    } else {
        encode_items::<T>(ms.drop_last()) + T::encoding(ms.last())
    }
}

/// Decodes `n` values one after the other from the front of `s`.
pub open spec fn parse_items<T: Codec>(s: Seq<u8>, n: nat) -> Result<(Seq<T::Model>, nat), DecodeError>
    decreases n,
{
    if n == 0 {
        Ok((Seq::empty(), 0))
    } else {
        match parse_items::<T>(s, (n - 1) as nat) {
            Ok((ms, k)) => match T::parse(s.skip(k as int)) {
                Ok((m, j)) => Ok((ms.push(m), k + j)),
                Err(e) => Err(e),
            },
            Err(e) => Err(e),
        }
    }
}

pub open spec fn all_encodable<T: Codec>(ms: Seq<T::Model>) -> bool {
    forall|i: int| 0 <= i < ms.len() ==> T::encodable(#[trigger] ms[i])
}

pub(crate) proof fn lemma_items_round_trip<T: Codec>(ms: Seq<T::Model>, rest: Seq<u8>)
    requires
        all_encodable::<T>(ms),
    ensures
        parse_items::<T>(encode_items::<T>(ms) + rest, ms.len()) == Ok::<(Seq<T::Model>, nat), DecodeError>(
            (ms, encode_items::<T>(ms).len()),
        ),
    decreases ms.len(),
{
    if ms.len() > 0 {
        let front = ms.drop_last();
        let last = ms.last();
        let e = encode_items::<T>(front);
        assert(all_encodable::<T>(front)) by {
            assert forall|i: int| 0 <= i < front.len() implies T::encodable(#[trigger] front[i]) by {
                assert(front[i] == ms[i]);
            }
        }
        assert(T::encodable(ms[ms.len() - 1]));
        lemma_items_round_trip::<T>(front, T::encoding(last) + rest);
        assert(encode_items::<T>(ms) + rest =~= e + (T::encoding(last) + rest));
        assert((e + (T::encoding(last) + rest)).skip(e.len() as int) =~= T::encoding(last) + rest);
        T::lemma_round_trip(last, rest);
        assert(front.push(last) =~= ms);
    } else {
        assert(ms =~= Seq::<T::Model>::empty());
    }
}

proof fn lemma_items_truncated<T: Codec>(ms: Seq<T::Model>, j: nat)
    requires
        all_encodable::<T>(ms),
        j < encode_items::<T>(ms).len(),
    ensures
        parse_items::<T>(encode_items::<T>(ms).take(j as int), ms.len()) == Err::<(Seq<T::Model>, nat), DecodeError>(
            DecodeError::Incomplete,
        ),
    decreases ms.len(),
{
    let front = ms.drop_last();
    let last = ms.last();
    let e = encode_items::<T>(front);
    let t = encode_items::<T>(ms).take(j as int);
    assert(all_encodable::<T>(front)) by {
        assert forall|i: int| 0 <= i < front.len() implies T::encodable(#[trigger] front[i]) by {
            assert(front[i] == ms[i]);
        }
    }
    assert(T::encodable(ms[ms.len() - 1]));
    if j >= e.len() {
        let cut = T::encoding(last).take(j - e.len());
        assert(t =~= e + cut);
        lemma_items_round_trip::<T>(front, cut);
        assert((e + cut).skip(e.len() as int) =~= cut);
        T::lemma_truncated(last, (j - e.len()) as nat);
    } else {
        assert(t =~= e.take(j as int));
        lemma_items_truncated::<T>(front, j);
    }
}

proof fn lemma_items_parse_len<T: Codec>(s: Seq<u8>, n: nat)
    ensures
        parse_items::<T>(s, n) is Ok ==> parse_items::<T>(s, n)->Ok_0.1 <= s.len(),
    decreases n,
{
    if n > 0 {
        lemma_items_parse_len::<T>(s, (n - 1) as nat);
        if parse_items::<T>(s, (n - 1) as nat) is Ok {
            let k = parse_items::<T>(s, (n - 1) as nat)->Ok_0.1;
            T::lemma_parse_len(s.skip(k as int));
        }
    }
}

pub(crate) proof fn lemma_items_err_persists<T: Codec>(s: Seq<u8>, i: nat, n: nat)
    requires
        i <= n,
        parse_items::<T>(s, i) is Err,
    ensures
        parse_items::<T>(s, n) == parse_items::<T>(s, i),
    decreases n - i,
{
    if i < n {
        lemma_items_err_persists::<T>(s, i, (n - 1) as nat);
    }
}

proof fn lemma_items_prefix_len<T: Codec>(ms: Seq<T::Model>, i: int)
    requires
        0 <= i <= ms.len(),
    ensures
        encode_items::<T>(ms.take(i)).len() <= encode_items::<T>(ms).len(),
    decreases ms.len(),
{
    if i < ms.len() {
        assert(ms.drop_last().take(i) =~= ms.take(i));
        lemma_items_prefix_len::<T>(ms.drop_last(), i);
    } else {
        assert(ms.take(i) =~= ms);
    }
}

impl<T: Codec> Codec for Vec<T> {
    type Model = Seq<T::Model>;

    open spec fn model(&self) -> Seq<T::Model> {
        models_of(self@)
    }

    open spec fn encodable(m: Seq<T::Model>) -> bool {
        fits_u32(m.len()) && all_encodable::<T>(m)
    }

    /// The number of items, then each item's encoding in order.
    open spec fn encoding(m: Seq<T::Model>) -> Seq<u8> {
        length_prefix(m.len()) + encode_items::<T>(m)
    }

    open spec fn parse(s: Seq<u8>) -> Result<(Seq<T::Model>, nat), DecodeError> {
        if s.len() < 4 {
            Err(DecodeError::Incomplete)
        } else {
            match parse_items::<T>(s.skip(4), announced(s)) {
                Ok((ms, k)) => Ok((ms, k + 4)),
                Err(e) => Err(e),
            }
        }
    }

    proof fn lemma_round_trip(m: Seq<T::Model>, rest: Seq<u8>) {
        lemma_auto_spec_u32_to_from_le_bytes();
        let s = Self::encoding(m) + rest;
        assert(s.take(4) =~= length_prefix(m.len()));
        assert(s.skip(4) =~= encode_items::<T>(m) + rest);
        lemma_items_round_trip::<T>(m, rest);
    }

    proof fn lemma_truncated(m: Seq<T::Model>, k: nat) {
        lemma_auto_spec_u32_to_from_le_bytes();
        let s = Self::encoding(m).take(k as int);
        if k >= 4 {
            assert(s.take(4) =~= length_prefix(m.len()));
            assert(s.skip(4) =~= encode_items::<T>(m).take(k - 4));
            lemma_items_truncated::<T>(m, (k - 4) as nat);
        }
    }

    proof fn lemma_parse_empty() {
    }

    proof fn lemma_parse_len(s: Seq<u8>) {
        if s.len() >= 4 {
            lemma_items_parse_len::<T>(s.skip(4), announced(s));
        }
    }
}

/// The length of the encoding of a sequence of `items`.
fn items_encoded_len<T: ToBytes>(items: &[T]) -> (r: Result<usize, EncodeError>)
    ensures
        !Vec::<T>::encodable(models_of(items@)) <==> r == Err::<usize, EncodeError>(
            EncodeError::Unrepresentable,
        ),
        r is Ok ==> r->Ok_0 == Vec::<T>::encoding(models_of(items@)).len(),
        r == Err::<usize, EncodeError>(EncodeError::BufferTooSmall) ==> Vec::<T>::encoding(
            models_of(items@),
        ).len() > usize::MAX,
{
    let ghost ms = models_of(items@);
    if items.len() > u32::MAX as usize {
        return Err(EncodeError::Unrepresentable);
    }
    proof {
        lemma_auto_spec_u32_to_from_le_bytes();
    }
    let mut total: usize = 4;
    let mut too_long = false;
    let mut i: usize = 0;
    assert(ms.take(0) =~= Seq::<T::Model>::empty());
    while i < items.len()
        invariant
            ms == models_of(items@),
            items@.len() <= u32::MAX,
            0 <= i <= items@.len(),
            all_encodable::<T>(ms.take(i as int)),
            !too_long ==> total == 4 + encode_items::<T>(ms.take(i as int)).len(),
            too_long ==> 4 + encode_items::<T>(ms.take(i as int)).len() > usize::MAX,
        decreases items@.len() - i,
    {
        proof {
            assert(ms.take(i + 1).drop_last() =~= ms.take(i as int));
            assert(ms[i as int] == items@[i as int].model());
            assert(ms.take(i + 1).last() == ms[i as int]);
            assert(encode_items::<T>(ms.take(i + 1)) == encode_items::<T>(ms.take(i as int)) + T::encoding(ms[i as int]));
        }
        match items[i].encoded_len() {
            Ok(n) => {
                if !too_long {
                    if n > usize::MAX - total {
                        too_long = true;
                    } else {
                        total = total + n;
                    }
                }
            },
            Err(EncodeError::BufferTooSmall) => {
                too_long = true;
            },
            Err(EncodeError::Unrepresentable) => {
                assert(!all_encodable::<T>(ms));
                return Err(EncodeError::Unrepresentable);
            },
        }
        proof {
            assert(all_encodable::<T>(ms.take(i + 1))) by {
                assert forall|j: int| 0 <= j < i + 1 implies T::encodable(#[trigger] ms.take(i + 1)[j]) by {
                    if j < i {
                        assert(ms.take(i + 1)[j] == ms.take(i as int)[j]);
                    }
                }
            }
        }
        i = i + 1;
    }
    assert(ms.take(i as int) =~= ms);
    assert(length_prefix(ms.len()).len() == 4);
    if too_long {
        Err(EncodeError::BufferTooSmall)
    } else {
        Ok(total)
    }
}

/// Writes the encoding of a sequence of `items` at offset `at` of `buffer`.
fn write_items<T: ToBytes>(items: &[T], buffer: &mut [u8], at: usize) -> (r: Result<usize, EncodeError>)
    requires
        at <= old(buffer)@.len(),
    ensures
        final(buffer)@.len() == old(buffer)@.len(),
        final(buffer)@.take(at as int) == old(buffer)@.take(at as int),
        r is Ok <==> Vec::<T>::encodable(models_of(items@)) && fits(
            at as int,
            Vec::<T>::encoding(models_of(items@)).len() as int,
            old(buffer)@.len() as int,
        ),
        r is Ok ==> r->Ok_0 == at + Vec::<T>::encoding(models_of(items@)).len() && final(buffer)@.subrange(at as int, r->Ok_0 as int) == Vec::<T>::encoding(models_of(items@)) && final(buffer)@.skip(r->Ok_0 as int) == old(buffer)@.skip(r->Ok_0 as int),
        r is Err ==> final(buffer)@ == old(buffer)@,
        !Vec::<T>::encodable(models_of(items@)) ==> r == Err::<usize, EncodeError>(
            EncodeError::Unrepresentable,
        ),
        Vec::<T>::encodable(models_of(items@)) && !fits(
            at as int,
            Vec::<T>::encoding(models_of(items@)).len() as int,
            old(buffer)@.len() as int,
        ) ==> r == Err::<usize, EncodeError>(EncodeError::BufferTooSmall),
{
    let ghost ms = models_of(items@);
    let avail = buffer.len() - at;
    let total = match items_encoded_len(items) {
        Ok(total) => total,
        Err(e) => return Err(e),
    };
    if avail <= total {
        return Err(EncodeError::BufferTooSmall);
    }
    proof {
        lemma_auto_spec_u32_to_from_le_bytes();
        lemma_items_prefix_len::<T>(ms, 0);
    }
    let n = items.len() as u32;
    let mut p = match n.write_at(buffer, at) {
        Ok(p) => p,
        Err(e) => return Err(e),
    };
    let mut i: usize = 0;
    assert(ms.take(0) =~= Seq::<T::Model>::empty());
    while i < items.len()
        invariant
            ms == models_of(items@),
            n == items@.len(),
            Vec::<T>::encodable(ms),
            at + Vec::<T>::encoding(ms).len() < buffer@.len(),
            at <= p < buffer@.len(),
            0 <= i <= items@.len(),
            buffer@.len() == old(buffer)@.len(),
            buffer@.take(at as int) == old(buffer)@.take(at as int),
            buffer@.subrange(at as int, p as int) == length_prefix(ms.len()) + encode_items::<T>(
                ms.take(i as int),
            ),
            buffer@.skip(p as int) == old(buffer)@.skip(p as int),
        decreases items@.len() - i,
    {
        let ghost before = buffer@;
        proof {
            assert(ms.take(i + 1).drop_last() =~= ms.take(i as int));
            assert(ms[i as int] == items@[i as int].model());
            assert(ms.take(i + 1).last() == ms[i as int]);
            assert(encode_items::<T>(ms.take(i + 1)) == encode_items::<T>(ms.take(i as int)) + T::encoding(ms[i as int]));
            lemma_items_prefix_len::<T>(ms, i + 1);
            lemma_auto_spec_u32_to_from_le_bytes();
            assert(length_prefix(ms.len()).len() == 4);
            assert(before.subrange(at as int, p as int).len() == p - at);
            assert(T::encodable(ms[i as int]));
            assert(p + T::encoding(ms[i as int]).len() <= at + Vec::<T>::encoding(ms).len());
        }
        let q = match items[i].write_at(buffer, p) {
            Ok(q) => q,
            Err(e) => return Err(e),
        };
        proof {
            assert(buffer@.take(at as int) =~= buffer@.take(p as int).take(at as int));
            assert(before.take(p as int).take(at as int) =~= before.take(at as int));
            assert(buffer@.subrange(at as int, q as int) =~= buffer@.take(p as int).subrange(at as int, p as int) + buffer@.subrange(p as int, q as int));
            assert(before.take(p as int).subrange(at as int, p as int) =~= before.subrange(at as int, p as int));
            assert(buffer@.skip(q as int) =~= old(buffer)@.skip(q as int)) by {
                assert(before.skip(p as int).skip(q - p) =~= before.skip(q as int));
                assert(old(buffer)@.skip(p as int).skip(q - p) =~= old(buffer)@.skip(q as int));
            }
        }
        p = q;
        i = i + 1;
    }
    assert(ms.take(i as int) =~= ms);
    Ok(p)
}

impl<T: ToBytes> ToBytes for Vec<T> {
    fn encoded_len(&self) -> (r: Result<usize, EncodeError>) {
        items_encoded_len(self.as_slice())
    }

    fn write_at(&self, buffer: &mut [u8], at: usize) -> (r: Result<usize, EncodeError>) {
        write_items(self.as_slice(), buffer, at)
    }
}

impl<'a, T: ToBytes> ToBytes for &'a [T] {
    fn encoded_len(&self) -> (r: Result<usize, EncodeError>) {
        items_encoded_len(*self)
    }

    fn write_at(&self, buffer: &mut [u8], at: usize) -> (r: Result<usize, EncodeError>) {
        write_items(*self, buffer, at)
    }
}

impl<T: FromBytes> FromBytes for Vec<T> {
    fn parse_at(buffer: &[u8], at: usize) -> (r: Result<(Vec<T>, usize), DecodeError>) {
        let (n, start) = match u32::parse_at(buffer, at) {
            Ok(x) => x,
            Err(e) => return Err(e),
        };
        let ghost s = buffer@.skip(at as int).skip(4);
        assert(s =~= buffer@.skip(start as int));
        let mut result: Vec<T> = Vec::new();
        let mut p = start;
        let mut i: u32 = 0;
        assert(models_of(result@) =~= Seq::<T::Model>::empty());
        assert(announced(buffer@.skip(at as int)) == n);
        while i < n
            invariant
                s == buffer@.skip(start as int),
                s == buffer@.skip(at as int).skip(4),
                buffer@.skip(at as int).len() >= 4,
                announced(buffer@.skip(at as int)) == n,
                start <= p <= buffer@.len(),
                i <= n,
                parse_items::<T>(s, i as nat) == Ok::<(Seq<T::Model>, nat), DecodeError>(
                    (models_of(result@), (p - start) as nat),
                ),
            decreases n - i,
        {
            assert(s.skip(p - start) =~= buffer@.skip(p as int));
            match T::parse_at(buffer, p) {
                Ok((v, q)) => {
                    let ghost prev = result@;
                    result.push(v);
                    assert(models_of(result@) =~= models_of(prev).push(v.model()));
                    p = q;
                },
                Err(e) => {
                    proof {
                        assert(parse_items::<T>(s, (i + 1) as nat) == Err::<(Seq<T::Model>, nat), DecodeError>(e));
                        lemma_items_err_persists::<T>(s, (i + 1) as nat, n as nat);
                    }
                    return Err(e);
                },
            }
            i = i + 1;
        }
        Ok((result, p))
    }
}

/// Relies on `RangeInclusive::start`: it returns the lower bound the range was
/// built with.
pub assume_specification<Idx>[ RangeInclusive::<Idx>::start ](r: &RangeInclusive<Idx>) -> (res: &Idx)
    ensures
        *res == r@.start,
;

/// Relies on `RangeInclusive::end`: it returns the upper bound the range was
/// built with.
pub assume_specification<Idx>[ RangeInclusive::<Idx>::end ](r: &RangeInclusive<Idx>) -> (res: &Idx)
    ensures
        *res == r@.end,
;

impl<T: Codec> Codec for RangeInclusive<T> {
    /// The bounds, start first.
    type Model = (T::Model, T::Model);

    open spec fn model(&self) -> (T::Model, T::Model) {
        (self@.start.model(), self@.end.model())
    }

    open spec fn encodable(m: (T::Model, T::Model)) -> bool {
        T::encodable(m.0) && T::encodable(m.1)
    }

    /// The start's encoding immediately followed by the end's.
    open spec fn encoding(m: (T::Model, T::Model)) -> Seq<u8> {
        T::encoding(m.0) + T::encoding(m.1)
    }

    open spec fn parse(s: Seq<u8>) -> Result<((T::Model, T::Model), nat), DecodeError> {
        match T::parse(s) {
            Ok((a, k)) => match T::parse(s.skip(k as int)) {
                Ok((b, j)) => Ok(((a, b), k + j)),
                Err(e) => Err(e),
            },
            Err(e) => Err(e),
        }
    }

    proof fn lemma_round_trip(m: (T::Model, T::Model), rest: Seq<u8>) {
        let ea = T::encoding(m.0);
        let eb = T::encoding(m.1);
        assert(ea + eb + rest =~= ea + (eb + rest));
        T::lemma_round_trip(m.0, eb + rest);
        assert((ea + (eb + rest)).skip(ea.len() as int) =~= eb + rest);
        T::lemma_round_trip(m.1, rest);
    }

    proof fn lemma_truncated(m: (T::Model, T::Model), k: nat) {
        let ea = T::encoding(m.0);
        let eb = T::encoding(m.1);
        let t = Self::encoding(m).take(k as int);
        if k < ea.len() {
            assert(t =~= ea.take(k as int));
            T::lemma_truncated(m.0, k);
        } else {
            let cut = eb.take(k - ea.len());
            assert(t =~= ea + cut);
            T::lemma_round_trip(m.0, cut);
            assert((ea + cut).skip(ea.len() as int) =~= cut);
            T::lemma_truncated(m.1, (k - ea.len()) as nat);
        }
    }

    proof fn lemma_parse_empty() {
        T::lemma_parse_empty();
    }

    proof fn lemma_parse_len(s: Seq<u8>) {
        T::lemma_parse_len(s);
        if T::parse(s) is Ok {
            T::lemma_parse_len(s.skip(T::parse(s)->Ok_0.1 as int));
        }
    }
}

impl<T: ToBytes> ToBytes for RangeInclusive<T> {
    fn encoded_len(&self) -> (r: Result<usize, EncodeError>) {
        let a = self.start().encoded_len();
        let b = self.end().encoded_len();
        match (a, b) {
            (Err(EncodeError::Unrepresentable), _) => Err(EncodeError::Unrepresentable),
            (_, Err(EncodeError::Unrepresentable)) => Err(EncodeError::Unrepresentable),
            (Ok(a), Ok(b)) => {
                if a > usize::MAX - b {
                    Err(EncodeError::BufferTooSmall)
                } else {
                    Ok(a + b)
                }
            },
            _ => Err(EncodeError::BufferTooSmall),
        }
    }

    fn write_at(&self, buffer: &mut [u8], at: usize) -> (r: Result<usize, EncodeError>) {
        let avail = buffer.len() - at;
        let total = match self.encoded_len() {
            Ok(total) => total,
            Err(e) => return Err(e),
        };
        if avail <= total {
            return Err(EncodeError::BufferTooSmall);
        }
        let start = self.start();
        let end = self.end();
        let p = match start.write_at(buffer, at) {
            Ok(p) => p,
            Err(e) => return Err(e),
        };
        let ghost mid = buffer@;
        let r = end.write_at(buffer, p);
        proof {
            assert(r is Ok);
            assert(final(buffer)@.take(at as int) =~= old(buffer)@.take(at as int)) by {
                assert(final(buffer)@.take(at as int) =~= final(buffer)@.take(p as int).take(at as int));
                assert(mid.take(p as int).take(at as int) =~= mid.take(at as int));
            }
            let q = r->Ok_0 as int;
            assert(final(buffer)@.subrange(at as int, q) =~= final(buffer)@.take(p as int).subrange(at as int, p as int) + final(buffer)@.subrange(p as int, q));
            assert(mid.take(p as int).subrange(at as int, p as int) =~= mid.subrange(at as int, p as int));
            assert(final(buffer)@.skip(q) =~= old(buffer)@.skip(q)) by {
                assert(mid.skip(p as int).skip(q - p) =~= mid.skip(q));
                assert(old(buffer)@.skip(p as int).skip(q - p) =~= old(buffer)@.skip(q));
            }
        }
        r
    }
}

impl<T: FromBytes> FromBytes for RangeInclusive<T> {
    fn parse_at(buffer: &[u8], at: usize) -> (r: Result<(RangeInclusive<T>, usize), DecodeError>) {
        let (start, p) = match T::parse_at(buffer, at) {
            Ok(x) => x,
            Err(e) => return Err(e),
        };
        assert(buffer@.skip(at as int).skip(p - at) =~= buffer@.skip(p as int));
        let (end, q) = match T::parse_at(buffer, p) {
            Ok(x) => x,
            Err(e) => return Err(e),
        };
        Ok((RangeInclusive::new(start, end), q))
    }
}


/// A reference encodes as the value it points to.
impl<'a, T: Codec> Codec for &'a T {
    type Model = T::Model;

    open spec fn model(&self) -> T::Model {
        (**self).model()
    }

    open spec fn encodable(m: T::Model) -> bool {
        T::encodable(m)
    }

    open spec fn encoding(m: T::Model) -> Seq<u8> {
        T::encoding(m)
    }

    open spec fn parse(s: Seq<u8>) -> Result<(T::Model, nat), DecodeError> {
        T::parse(s)
    }

    proof fn lemma_round_trip(m: T::Model, rest: Seq<u8>) {
        T::lemma_round_trip(m, rest);
    }

    proof fn lemma_truncated(m: T::Model, k: nat) {
        T::lemma_truncated(m, k);
    }

    proof fn lemma_parse_empty() {
        T::lemma_parse_empty();
    }

    proof fn lemma_parse_len(s: Seq<u8>) {
        T::lemma_parse_len(s);
    }
}

impl<'a, T: ToBytes> ToBytes for &'a T {
    fn encoded_len(&self) -> (r: Result<usize, EncodeError>) {
        (**self).encoded_len()
    }

    fn write_at(&self, buffer: &mut [u8], at: usize) -> (r: Result<usize, EncodeError>) {
        (**self).write_at(buffer, at)
    }
}


impl<'a, T: Codec> Codec for &'a [T] {
    type Model = Seq<T::Model>;

    open spec fn model(&self) -> Seq<T::Model> {
        models_of(self@)
    }

    open spec fn encodable(m: Seq<T::Model>) -> bool {
        Vec::<T>::encodable(m)
    }

    open spec fn encoding(m: Seq<T::Model>) -> Seq<u8> {
        Vec::<T>::encoding(m)
    }

    open spec fn parse(s: Seq<u8>) -> Result<(Seq<T::Model>, nat), DecodeError> {
        Vec::<T>::parse(s)
    }

    proof fn lemma_round_trip(m: Seq<T::Model>, rest: Seq<u8>) {
        Vec::<T>::lemma_round_trip(m, rest);
    }

    proof fn lemma_truncated(m: Seq<T::Model>, k: nat) {
        Vec::<T>::lemma_truncated(m, k);
    }

    proof fn lemma_parse_empty() {
        Vec::<T>::lemma_parse_empty();
    }

    proof fn lemma_parse_len(s: Seq<u8>) {
        Vec::<T>::lemma_parse_len(s);
    }
}

} // verus!

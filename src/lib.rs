//! A compact binary encoding engine over a caller-owned, fixed-capacity byte region.
//!
//! Values are written into the free suffix of a [`Buffin`] and taken back from its
//! front. Every encoding is self-delimiting, so a decoder can tell "not enough
//! bytes yet" ([`DecodeError::Incomplete`]) apart from "malformed data"
//! ([`DecodeError::Invalid`]).
use vstd::prelude::*;

pub mod basic_types;
pub mod laws;
pub mod tags;

verus! {

/// Why a value could not be written.
#[derive(Debug, Clone, Copy, PartialEq, Eq, Structural)]
pub enum EncodeError {
    /// The free capacity of the region is exhausted.
    BufferTooSmall,
    /// The value has no encoding (a length that does not fit in a `u32`).
    Unrepresentable,
}

/// Why bytes could not be decoded.
#[derive(Debug, Clone, Copy, PartialEq, Eq, Structural)]
pub enum DecodeError {
    /// The bytes are a valid beginning, but more are needed.
    Incomplete,
    /// The bytes cannot begin any valid encoding.
    Invalid,
}

/// Why [`Buffin::pop`] did not return a value.
#[derive(Debug, Clone, Copy, PartialEq, Eq, Structural)]
pub enum PopFailure {
    Invalid,
    Incomplete,
}

pub open spec fn pop_failure_of(e: DecodeError) -> PopFailure {
    match e {
        DecodeError::Incomplete => PopFailure::Incomplete,
        DecodeError::Invalid => PopFailure::Invalid,
    }
}

/// Whether `len` bytes written at `at` fit in a region of `cap` bytes.
///
/// One byte of capacity always stays free: a write must end strictly before the
/// end of the region.
pub open spec fn fits(at: int, len: int, cap: int) -> bool {
    at + len < cap
}

/// The mathematical description of a wire format: what a value encodes to, and
/// what a byte sequence decodes to.
pub trait Codec: Sized {
    /// The plain value that an encoding stands for.
    type Model;

    spec fn model(&self) -> Self::Model;

    /// Whether the value has an encoding at all.
    spec fn encodable(m: Self::Model) -> bool;

    /// The bytes that encode `m`.
    spec fn encoding(m: Self::Model) -> Seq<u8>;

    /// What a decoder reads from the front of `s`: a value and the number of
    /// bytes it took, or why it could not.
    spec fn parse(s: Seq<u8>) -> Result<(Self::Model, nat), DecodeError>;

    /// Decoding an encoding, followed by anything, gives back the value and
    /// stops exactly at the end of its encoding.
    proof fn lemma_round_trip(m: Self::Model, rest: Seq<u8>)
        requires
            Self::encodable(m),
        ensures
            Self::encoding(m).len() > 0,
            Self::parse(Self::encoding(m) + rest) == Ok::<(Self::Model, nat), DecodeError>(
                (m, Self::encoding(m).len()),
            ),
    ;

    /// Every strict prefix of an encoding asks for more bytes.
    proof fn lemma_truncated(m: Self::Model, k: nat)
        requires
            Self::encodable(m),
            k < Self::encoding(m).len(),
        ensures
            Self::parse(Self::encoding(m).take(k as int)) == Err::<(Self::Model, nat), DecodeError>(
                DecodeError::Incomplete,
            ),
    ;

    /// With no bytes at all, a decoder asks for more.
    proof fn lemma_parse_empty()
        ensures
            Self::parse(Seq::empty()) == Err::<(Self::Model, nat), DecodeError>(
                DecodeError::Incomplete,
            ),
    ;

    /// A decoder never claims more bytes than it was given.
    proof fn lemma_parse_len(s: Seq<u8>)
        ensures
            Self::parse(s) is Ok ==> Self::parse(s)->Ok_0.1 <= s.len(),
    ;
}

/// A value that can write its encoding.
pub trait ToBytes: Codec {
    /// The length of the encoding. [`EncodeError::Unrepresentable`] exactly when
    /// the value has no encoding; [`EncodeError::BufferTooSmall`] when the length
    /// exceeds what any region can hold.
    fn encoded_len(&self) -> (r: Result<usize, EncodeError>)
        ensures
            !Self::encodable(self.model()) <==> r == Err::<usize, EncodeError>(
                EncodeError::Unrepresentable,
            ),
            r is Ok ==> r->Ok_0 == Self::encoding(self.model()).len(),
            r == Err::<usize, EncodeError>(EncodeError::BufferTooSmall) ==> Self::encoding(
                self.model(),
            ).len() > usize::MAX,
    ;

    /// Writes the encoding at offset `at` of `buffer` and returns the offset just
    /// past it. Bytes outside the encoding are never touched, and on failure
    /// nothing is.
    fn write_at(&self, buffer: &mut [u8], at: usize) -> (r: Result<usize, EncodeError>)
        requires
            at <= old(buffer)@.len(),
        ensures
            final(buffer)@.len() == old(buffer)@.len(),
            final(buffer)@.take(at as int) == old(buffer)@.take(at as int),
            r is Ok <==> Self::encodable(self.model()) && fits(
                at as int,
                Self::encoding(self.model()).len() as int,
                old(buffer)@.len() as int,
            ),
            r is Ok ==> r->Ok_0 == at + Self::encoding(self.model()).len() && final(buffer)@.subrange(at as int, r->Ok_0 as int) == Self::encoding(self.model()) && final(buffer)@.skip(r->Ok_0 as int) == old(buffer)@.skip(r->Ok_0 as int),
            r is Err ==> final(buffer)@ == old(buffer)@,
            !Self::encodable(self.model()) ==> r == Err::<usize, EncodeError>(
                EncodeError::Unrepresentable,
            ),
            Self::encodable(self.model()) && !fits(
                at as int,
                Self::encoding(self.model()).len() as int,
                old(buffer)@.len() as int,
            ) ==> r == Err::<usize, EncodeError>(EncodeError::BufferTooSmall),
    ;

    /// Writes the encoding at the start of `buffer` and returns its length.
    fn to_bytes(&self, buffer: &mut [u8]) -> (r: Result<usize, EncodeError>)
        ensures
            final(buffer)@.len() == old(buffer)@.len(),
            r is Ok <==> Self::encodable(self.model()) && Self::encoding(self.model()).len()
                < old(buffer)@.len(),
            r is Ok ==> r->Ok_0 == Self::encoding(self.model()).len() && final(buffer)@
                == Self::encoding(self.model()) + old(buffer)@.skip(r->Ok_0 as int),
            r is Err ==> final(buffer)@ == old(buffer)@,
            !Self::encodable(self.model()) ==> r == Err::<usize, EncodeError>(
                EncodeError::Unrepresentable,
            ),
            Self::encodable(self.model()) && Self::encoding(self.model()).len() >= old(buffer)@.len()
                ==> r == Err::<usize, EncodeError>(EncodeError::BufferTooSmall),
        {
            let r = self.write_at(buffer, 0);
            proof {
                if r is Ok {
                    let n = r->Ok_0 as int;
                    assert(final(buffer)@ =~= final(buffer)@.subrange(0, n) + final(buffer)@.skip(n));
                }
            }
            r
        }
}

/// A value that can be read back from its encoding.
pub trait FromBytes: Codec {
    /// Decodes a value from `buffer[at..]` and returns it with the offset just
    /// past its encoding.
    fn parse_at(buffer: &[u8], at: usize) -> (r: Result<(Self, usize), DecodeError>)
        requires
            at <= buffer@.len(),
        ensures
            match r {
                Ok((v, p)) => at <= p <= buffer@.len() && Self::parse(buffer@.skip(at as int))
                    == Ok::<(Self::Model, nat), DecodeError>((v.model(), (p - at) as nat)),
                Err(e) => Self::parse(buffer@.skip(at as int)) == Err::<
                    (Self::Model, nat),
                    DecodeError,
                >(e),
            },
    ;

    /// Decodes a value from the front of `buffer` and returns the bytes after it
    /// with the value.
    fn from_bytes(buffer: &[u8]) -> (r: Result<(&[u8], Self), DecodeError>)
        ensures
            match r {
                Ok((rest, v)) => Self::parse(buffer@) == Ok::<(Self::Model, nat), DecodeError>(
                    (v.model(), (buffer@.len() - rest@.len()) as nat),
                ) && rest@.len() <= buffer@.len() && rest@ == buffer@.skip(
                    buffer@.len() - rest@.len(),
                ),
                Err(e) => Self::parse(buffer@) == Err::<(Self::Model, nat), DecodeError>(e),
            },
        {
            assert(buffer@.skip(0) =~= buffer@);
            match Self::parse_at(buffer, 0) {
                Ok((v, p)) => {
                    let rest = vstd::slice::slice_subrange(buffer, p, buffer.len());
                    Ok((rest, v))
                },
                Err(e) => Err(e),
            }
        }
}

/// Copies `bytes` to `buffer[at..]` where they fit, and returns the offset past them.
pub fn write_raw(buffer: &mut [u8], at: usize, bytes: &[u8]) -> (r: Result<usize, EncodeError>)
    requires
        at <= old(buffer)@.len(),
    ensures
        final(buffer)@.len() == old(buffer)@.len(),
        r is Ok <==> fits(at as int, bytes@.len() as int, old(buffer)@.len() as int),
        r is Ok ==> r->Ok_0 == at + bytes@.len() && final(buffer)@ == old(buffer)@.take(
            at as int,
        ) + bytes@ + old(buffer)@.skip(r->Ok_0 as int),
        r is Err ==> r == Err::<usize, EncodeError>(EncodeError::BufferTooSmall) && final(buffer)@
            == old(buffer)@,
{
    if bytes.len() >= buffer.len() - at {
        return Err(EncodeError::BufferTooSmall);
    }
    let ghost before = buffer@;
    let cap: usize = buffer.len();
    let mut i: usize = 0;
    while i < bytes.len()
        invariant
            at + bytes@.len() < cap,
            buffer@.len() == before.len(),
            cap == before.len(),
            0 <= i <= bytes@.len(),
            buffer@ == before.take(at as int) + bytes@.take(i as int) + before.skip(at + i),
        decreases bytes@.len() - i,
    {
        buffer[at + i] = bytes[i];
        i = i + 1;
        proof {
            assert(buffer@ =~= before.take(at as int) + bytes@.take(i as int) + before.skip(at + i));
        }
    }
    assert(bytes@.take(i as int) =~= bytes@);
    Ok(at + bytes.len())
}

/// A bounds-checked read/write window over a borrowed byte region.
///
/// The bytes `[0, pos)` are in use: written and not yet taken. The rest of the
/// region is free.
pub struct Buffin<'a> {
    buffer: &'a mut [u8],
    pos: usize,
}

impl<'a> Buffin<'a> {
    /// The whole region.
    pub closed spec fn region(&self) -> Seq<u8> {
        self.buffer@
    }

    /// The number of bytes in use.
    pub closed spec fn pos(&self) -> nat {
        self.pos as nat
    }

    pub open spec fn capacity(&self) -> nat {
        self.region().len()
    }

    /// The bytes in use.
    pub open spec fn used(&self) -> Seq<u8> {
        self.region().take(self.pos() as int)
    }

    pub open spec fn wf(&self) -> bool {
        self.pos() <= self.capacity()
    }

    /// Create a new instance with an empty buffer.
    pub fn new(buffer: &'a mut [u8]) -> (r: Self)
        ensures
            r.wf(),
            r.pos() == 0,
            r.region() == old(buffer)@,
    {
        Buffin { buffer, pos: 0 }
    }

    /// Create a new instance that considers itself filled by the provided buffer.
    pub fn new_filled(buffer: &'a mut [u8]) -> (r: Self)
        ensures
            r.wf(),
            r.pos() == old(buffer)@.len(),
            r.region() == old(buffer)@,
    {
        let len = buffer.len();
        Buffin { buffer, pos: len }
    }

    /// Create a new instance that considers the first `pos` bytes as data.
    pub fn with_pos(buffer: &'a mut [u8], pos: usize) -> (r: Self)
        requires
            pos <= old(buffer)@.len(),
        ensures
            r.wf(),
            r.pos() == pos,
            r.region() == old(buffer)@,
    {
        Buffin { buffer, pos }
    }

    /// Returns the number of used bytes.
    pub fn len(&self) -> (r: usize)
        ensures
            r == self.pos(),
    {
        self.pos
    }

    /// Returns the used bytes as a slice.
    pub fn bytes(&self) -> (r: &[u8])
        requires
            self.wf(),
        ensures
            r@ == self.used(),
    {
        vstd::slice::slice_subrange(&*self.buffer, 0, self.pos)
    }

    /// Empty the buffer. The region's bytes are left as they are.
    pub fn clear(&mut self)
        ensures
            final(self).pos() == 0,
            final(self).region() == old(self).region(),
    {
        self.pos = 0;
    }

    /// Returns true if the buffer is empty.
    pub fn is_empty(&self) -> (r: bool)
        ensures
            r == (self.pos() == 0),
    {
        self.len() == 0
    }

    /// Adds the given bytes as is.
    ///
    /// Fails with [`EncodeError::BufferTooSmall`], leaving the buffer as it was,
    /// unless the bytes end strictly before the end of the region.
    pub fn add_bytes(&mut self, bytes: &[u8]) -> (r: Result<(), EncodeError>)
        requires
            old(self).wf(),
        ensures
            final(self).wf(),
            final(self).capacity() == old(self).capacity(),
            r is Ok <==> fits(old(self).pos() as int, bytes@.len() as int, old(self).capacity() as int),
            r is Ok ==> final(self).pos() == old(self).pos() + bytes@.len() && final(self).used()
                == old(self).used() + bytes@ && final(self).region().skip(final(self).pos() as int)
                == old(self).region().skip(final(self).pos() as int),
            r is Err ==> r == Err::<(), EncodeError>(EncodeError::BufferTooSmall) && final(self).pos()
                == old(self).pos() && final(self).region() == old(self).region(),
    {
        let r = write_raw(self.buffer, self.pos, bytes);
        match r {
            Ok(p) => {
                self.pos = p;
                assert(self.used() =~= old(self).used() + bytes@);
                assert(self.region().skip(p as int) =~= old(self).region().skip(p as int));
                Ok(())
            },
            Err(e) => Err(e),
        }
    }

    /// Adds something that implements [`ToBytes`].
    ///
    /// On failure the used bytes and their count stay as they were.
    pub fn add<T: ToBytes>(&mut self, b: &T) -> (r: Result<(), EncodeError>)
        requires
            old(self).wf(),
        ensures
            final(self).wf(),
            final(self).capacity() == old(self).capacity(),
            r is Ok <==> T::encodable(b.model()) && fits(
                old(self).pos() as int,
                T::encoding(b.model()).len() as int,
                old(self).capacity() as int,
            ),
            r is Ok ==> final(self).pos() == old(self).pos() + T::encoding(b.model()).len()
                && final(self).used() == old(self).used() + T::encoding(b.model()) && final(self).region().skip(final(self).pos() as int) == old(self).region().skip(
                final(self).pos() as int,
            ),
            r is Err ==> final(self).pos() == old(self).pos() && final(self).region() == old(self).region(),
            !T::encodable(b.model()) ==> r == Err::<(), EncodeError>(EncodeError::Unrepresentable),
            T::encodable(b.model()) && !fits(
                old(self).pos() as int,
                T::encoding(b.model()).len() as int,
                old(self).capacity() as int,
            ) ==> r == Err::<(), EncodeError>(EncodeError::BufferTooSmall),
    {
        let r = b.write_at(self.buffer, self.pos);
        match r {
            Ok(p) => {
                let ghost start = old(self).pos() as int;
                self.pos = p;
                assert(self.used() =~= old(self).used() + T::encoding(b.model())) by {
                    assert(self.used() =~= self.buffer@.take(start) + self.buffer@.subrange(
                        start,
                        p as int,
                    ));
                }
                Ok(())
            },
            Err(e) => Err(e),
        }
    }

    /// Remove the n first bytes: the used bytes after them move to the front.
    pub fn remove_first(&mut self, n: usize)
        requires
            old(self).wf(),
            n <= old(self).pos(),
        ensures
            final(self).wf(),
            final(self).capacity() == old(self).capacity(),
            final(self).pos() == old(self).pos() - n,
            final(self).used() == old(self).used().skip(n as int),
    {
        let ghost before = self.buffer@;
        let count: usize = self.pos - n;
        let mut i: usize = 0;
        while i < count
            invariant
                count == old(self).pos() - n,
                n + count <= before.len(),
                self.buffer@.len() == before.len(),
                0 <= i <= count,
                forall|j: int| 0 <= j < i ==> self.buffer@[j] == before[n + j],
                forall|j: int| i <= j < before.len() ==> self.buffer@[j] == before[j],
            decreases count - i,
        {
            let b = self.buffer[n + i];
            self.buffer[i] = b;
            i = i + 1;
        }
        self.pos = count;
        assert(self.used() =~= old(self).used().skip(n as int));
    }

    /// Attempts to pop the first item of the given type.
    ///
    /// On success the bytes of its encoding leave the front of the buffer and
    /// the used bytes after them move to offset zero. On failure the buffer is
    /// left as it was.
    pub fn pop<T: FromBytes>(&mut self) -> (r: Result<T, PopFailure>)
        requires
            old(self).wf(),
        ensures
            final(self).wf(),
            final(self).capacity() == old(self).capacity(),
            match T::parse(old(self).used()) {
                Ok((m, k)) => r is Ok && r->Ok_0.model() == m && final(self).pos() == old(self).pos()
                    - k && final(self).used() == old(self).used().skip(k as int),
                Err(e) => r == Err::<T, PopFailure>(pop_failure_of(e)) && final(self).pos()
                    == old(self).pos() && final(self).region() == old(self).region(),
            },
    {
        let used = self.bytes();
        assert(used@.skip(0) =~= used@);
        match T::parse_at(used, 0) {
            Ok((v, p)) => {
                self.remove_first(p);
                Ok(v)
            },
            Err(DecodeError::Incomplete) => Err(PopFailure::Incomplete),
            Err(DecodeError::Invalid) => Err(PopFailure::Invalid),
        }
    }
}

} // verus!

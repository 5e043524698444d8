//! The pieces that records and tagged unions are built from: literal tags, and
//! the choice among the variant tags of a union.
//!
//! A record encodes as its optional type tag, then its fields in declared order.
//! A union encodes as its optional type tag, then the chosen case's variant tag,
//! then that case's fields. Tags are written with [`crate::write_raw`] or
//! [`crate::Buffin::add_bytes`].
use crate::DecodeError;
use vstd::prelude::*;

verus! {

/// Whether `a` is a prefix of `b`.
pub open spec fn is_prefix(a: Seq<u8>, b: Seq<u8>) -> bool {
    a.len() <= b.len() && b.take(a.len() as int) == a
}

/// What matching the literal `tag` at the front of `s` gives: the tag's length,
/// or [`DecodeError::Incomplete`] when `s` is a strict prefix of the tag.
pub open spec fn tag_parse(s: Seq<u8>, tag: Seq<u8>) -> Result<nat, DecodeError> {
    if s.len() >= tag.len() {
        if s.take(tag.len() as int) == tag {
            Ok(tag.len())
        } else {
            Err(DecodeError::Invalid)
        }
    } else if tag.take(s.len() as int) == s {
        Err(DecodeError::Incomplete)
    } else {
        Err(DecodeError::Invalid)
    }
}

/// Tries the variant tags from index `i` on, in order: the first that matches
/// wins, and one that needs more bytes stops the search.
pub open spec fn variant_parse(s: Seq<u8>, tags: Seq<Seq<u8>>, i: nat) -> Result<(nat, nat), DecodeError>
    decreases tags.len() - i,
{
    if i >= tags.len() {
        Err(DecodeError::Invalid)
    } else {
        match tag_parse(s, tags[i as int]) {
            Ok(n) => Ok((i, n)),
            Err(DecodeError::Incomplete) => Err(DecodeError::Incomplete),
            Err(DecodeError::Invalid) => variant_parse(s, tags, i + 1),
        }
    }
}

/// No tag of the set is a prefix of another one (nor equal to it).
pub open spec fn prefix_free(tags: Seq<Seq<u8>>) -> bool {
    forall|i: int, j: int|
        0 <= i < tags.len() && 0 <= j < tags.len() && i != j ==> !is_prefix(
            #[trigger] tags[i],
            #[trigger] tags[j],
        )
}

pub open spec fn tags_of(tags: Seq<Vec<u8>>) -> Seq<Seq<u8>> {
    tags.map_values(|t: Vec<u8>| t@)
}

/// Matches the literal `tag` at `buffer[at..]` and returns the offset past it.
pub fn match_tag(buffer: &[u8], at: usize, tag: &[u8]) -> (r: Result<usize, DecodeError>)
    requires
        at <= buffer@.len(),
    ensures
        match r {
            Ok(p) => p <= buffer@.len() && tag_parse(buffer@.skip(at as int), tag@) == Ok::<
                nat,
                DecodeError,
            >((p - at) as nat),
            Err(e) => tag_parse(buffer@.skip(at as int), tag@) == Err::<nat, DecodeError>(e),
        },
{
    let ghost s = buffer@.skip(at as int);
    let avail = buffer.len() - at;
    let n: usize = if avail < tag.len() {
        avail
    } else {
        tag.len()
    };
    let mut i: usize = 0;
    while i < n
        invariant
            n <= avail,
            n <= tag@.len(),
            avail == buffer@.len() - at,
            at + avail <= usize::MAX,
            s == buffer@.skip(at as int),
            0 <= i <= n,
            s.take(i as int) == tag@.take(i as int),
        decreases n - i,
    {
        if buffer[at + i] != tag[i] {
            assert(s.take(i + 1)[i as int] != tag@.take(i + 1)[i as int]);
            if avail >= tag.len() {
                assert(s.take(tag@.len() as int)[i as int] != tag@[i as int]);
            } else {
                assert(tag@.take(avail as int)[i as int] != s[i as int]);
                assert(s.len() == avail);
            }
            return Err(DecodeError::Invalid);
        }
        i = i + 1;
        assert(s.take(i as int) =~= tag@.take(i as int));
    }
    if avail < tag.len() {
        assert(s =~= s.take(avail as int));
        Err(DecodeError::Incomplete)
    } else {
        assert(tag@.take(i as int) =~= tag@);
        Ok(at + tag.len())
    }
}

/// Finds the first of `tags`, in their order, that matches at `buffer[at..]`,
/// and returns its index with the offset past it.
pub fn match_variant(buffer: &[u8], at: usize, tags: &Vec<Vec<u8>>) -> (r: Result<
    (usize, usize),
    DecodeError,
>)
    requires
        at <= buffer@.len(),
    ensures
        match r {
            Ok((i, p)) => p <= buffer@.len() && variant_parse(
                buffer@.skip(at as int),
                tags_of(tags@),
                0,
            ) == Ok::<(nat, nat), DecodeError>((i as nat, (p - at) as nat)),
            Err(e) => variant_parse(buffer@.skip(at as int), tags_of(tags@), 0) == Err::<
                (nat, nat),
                DecodeError,
            >(e),
        },
{
    let ghost s = buffer@.skip(at as int);
    let ghost ts = tags_of(tags@);
    let mut i: usize = 0;
    while i < tags.len()
        invariant
            s == buffer@.skip(at as int),
            ts == tags_of(tags@),
            at <= buffer@.len(),
            0 <= i <= tags@.len(),
            variant_parse(s, ts, 0) == variant_parse(s, ts, i as nat),
        decreases tags@.len() - i,
    {
        assert(ts[i as int] == tags@[i as int]@);
        match match_tag(buffer, at, tags[i].as_slice()) {
            Ok(p) => {
                return Ok((i, p));
            },
            Err(DecodeError::Incomplete) => {
                return Err(DecodeError::Incomplete);
            },
            Err(DecodeError::Invalid) => {},
        }
        i = i + 1;
    }
    Err(DecodeError::Invalid)
}

/// Whether no tag of `tags` is a prefix of another, so that every case of a
/// union can be told apart from the others by its tag.
pub fn tags_are_prefix_free(tags: &Vec<Vec<u8>>) -> (r: bool)
    ensures
        r == prefix_free(tags_of(tags@)),
{
    let ghost ts = tags_of(tags@);
    let mut i: usize = 0;
    while i < tags.len()
        invariant
            ts == tags_of(tags@),
            0 <= i <= tags@.len(),
            forall|a: int, b: int|
                0 <= a < i && 0 <= b < ts.len() && a != b ==> !is_prefix(
                    #[trigger] ts[a],
                    #[trigger] ts[b],
                ),
        decreases tags@.len() - i,
    {
        let mut j: usize = 0;
        while j < tags.len()
            invariant
                ts == tags_of(tags@),
                0 <= i < tags@.len(),
                0 <= j <= tags@.len(),
                forall|a: int, b: int|
                    0 <= a < i && 0 <= b < ts.len() && a != b ==> !is_prefix(
                        #[trigger] ts[a],
                        #[trigger] ts[b],
                    ),
                forall|b: int| 0 <= b < j && b != i ==> !is_prefix(ts[i as int], #[trigger] ts[b]),
            decreases tags@.len() - j,
        {
            if i != j && starts_with(tags[j].as_slice(), tags[i].as_slice()) {
                assert(is_prefix(ts[i as int], ts[j as int]));
                return false;
            }
            j = j + 1;
        }
        i = i + 1;
    }
    true
}

/// Whether `a` is a prefix of `b`.
fn starts_with(b: &[u8], a: &[u8]) -> (r: bool)
    ensures
        r == is_prefix(a@, b@),
{
    if a.len() > b.len() {
        return false;
    }
    let mut i: usize = 0;
    while i < a.len()
        invariant
            a@.len() <= b@.len(),
            0 <= i <= a@.len(),
            b@.take(i as int) == a@.take(i as int),
        decreases a@.len() - i,
    {
        if a[i] != b[i] {
            assert(b@.take(a@.len() as int)[i as int] != a@[i as int]);
            return false;
        }
        i = i + 1;
        assert(b@.take(i as int) =~= a@.take(i as int));
    }
    assert(a@.take(i as int) =~= a@);
    true
}

/// With prefix-free tags, the bytes of any one tag (followed by anything) select
/// exactly that case and consume exactly its tag.
pub proof fn lemma_prefix_free_selects(tags: Seq<Seq<u8>>, j: int, rest: Seq<u8>)
    requires
        prefix_free(tags),
        0 <= j < tags.len(),
    ensures
        variant_parse(tags[j] + rest, tags, 0) == Ok::<(nat, nat), DecodeError>(
            (j as nat, tags[j].len()),
        ),
{
    lemma_selects_from(tags, j, rest, 0);
}

proof fn lemma_selects_from(tags: Seq<Seq<u8>>, j: int, rest: Seq<u8>, i: nat)
    requires
        prefix_free(tags),
        0 <= j < tags.len(),
        i <= j,
    ensures
        variant_parse(tags[j] + rest, tags, i) == Ok::<(nat, nat), DecodeError>(
            (j as nat, tags[j].len()),
        ),
    decreases j - i,
{
    let s = tags[j] + rest;
    let t = tags[i as int];
    if i == j {
        assert(s.take(t.len() as int) =~= t);
    } else {
        assert(!is_prefix(t, tags[j]));
        assert(!is_prefix(tags[j], t));
        if s.len() >= t.len() {
            if t.len() <= tags[j].len() {
                assert(s.take(t.len() as int) =~= tags[j].take(t.len() as int));
            } else {
                assert(s.take(t.len() as int).take(tags[j].len() as int) =~= tags[j]);
                if s.take(t.len() as int) == t {
                    assert(t.take(tags[j].len() as int) == tags[j]);
                }
            }
        } else {
            assert(s.len() >= tags[j].len());
            if t.take(s.len() as int) == s {
                assert(t.take(tags[j].len() as int) =~= s.take(tags[j].len() as int));
                assert(s.take(tags[j].len() as int) =~= tags[j]);
            }
        }
        lemma_selects_from(tags, j, rest, i + 1);
    }
}


/// With prefix-free tags, the bytes of any one tag cut before its end ask for
/// more bytes.
pub proof fn lemma_prefix_free_cut_is_incomplete(tags: Seq<Seq<u8>>, j: int, k: int)
    requires
        prefix_free(tags),
        0 <= j < tags.len(),
        0 <= k < tags[j].len(),
    ensures
        variant_parse(tags[j].take(k), tags, 0) == Err::<(nat, nat), DecodeError>(
            DecodeError::Incomplete,
        ),
{
    lemma_cut_from(tags, j, k, 0);
}

proof fn lemma_cut_from(tags: Seq<Seq<u8>>, j: int, k: int, i: nat)
    requires
        prefix_free(tags),
        0 <= j < tags.len(),
        0 <= k < tags[j].len(),
        i <= j,
    ensures
        variant_parse(tags[j].take(k), tags, i) == Err::<(nat, nat), DecodeError>(
            DecodeError::Incomplete,
        ),
    decreases j - i,
{
    let s = tags[j].take(k);
    let t = tags[i as int];
    if i == j {
        assert(t.take(k) == s);
    } else {
        assert(!is_prefix(t, tags[j]));
        if s.len() >= t.len() {
            assert(s.take(t.len() as int) =~= tags[j].take(t.len() as int));
        }
        lemma_cut_from(tags, j, k, i + 1);
    }
}

} // verus!

//! Reading fields one after another while keeping track, for the proofs, of
//! how far a decoder has come from where it started.

use vstd::prelude::*;

use crate::types::io::{
    be_i16, be_i64, be_u16, be_u32, byte_or_zero, rest, CoreRead, CoreReadError,
};
use crate::types::Error;

verus! {

/// The bytes that a source has yet to deliver.
pub open spec fn pending<R: CoreRead>(reader: &R) -> Seq<u8> {
    rest(reader.stream(), reader.pos())
}

/// The error of a read that would have ended at offset `end` of the bytes
/// `s` that were left: it tells how many bytes were missing.
pub open spec fn short(s: Seq<u8>, end: int) -> Error {
    Error::Io(CoreReadError::UnexpectedEnd((end - s.len()) as usize))
}

/// The error of reading fields of `width` bytes each, one after another
/// from offset `start` of the bytes `s` that were left, at the first of them
/// that `s` does not hold whole.
pub open spec fn short_in_run(s: Seq<u8>, start: int, width: int) -> Error {
    short(s, start + width * ((s.len() - start) / width + 1))
}

/// `reader` is `origin` moved on by `k` bytes and otherwise unchanged.
pub open spec fn follows<R: CoreRead>(origin: &R, reader: &R, k: int) -> bool {
    &&& origin.wf()
    &&& reader.wf()
    &&& 0 <= k
    &&& origin.pos() + k <= origin.stream().len()
    &&& reader.stream() == origin.stream()
    &&& reader.pos() == origin.pos() + k
    &&& *reader == origin.at((origin.pos() + k) as nat)
}

/// `post` is `pre` moved on by some number of bytes and otherwise
/// unchanged.
pub open spec fn moved<R: CoreRead>(pre: &R, post: &R) -> bool {
    follows(pre, post, post.pos() - pre.pos())
}

/// A source follows itself at no distance.
pub proof fn lemma_follows_start<R: CoreRead>(origin: &R)
    requires
        origin.wf(),
    ensures
        follows(origin, origin, 0),
        pending(origin).len() == origin.stream().len() - origin.pos(),
{
    origin.lemma_here();
}

/// Following composes: what follows a follower of `origin` follows `origin`.
pub proof fn lemma_follows_on<R: CoreRead>(origin: &R, mid: &R, reader: &R, k: int, j: int)
    requires
        follows(origin, mid, k),
        mid.pos() + j <= mid.stream().len(),
        0 <= j,
        reader.wf(),
        *reader == mid.at((mid.pos() + j) as nat),
    ensures
        follows(origin, reader, k + j),
{
    origin.lemma_at((origin.pos() + k) as nat, (origin.pos() + k + j) as nat);
    origin.lemma_at((origin.pos() + k + j) as nat, 0);
}

pub(crate) fn take_u8<R: CoreRead>(reader: &mut R, Ghost(origin): Ghost<&R>, Ghost(k): Ghost<int>) -> (r:
    Result<u8, Error>)
    requires
        follows(origin, old(reader), k),
    ensures
        k + 1 <= pending(origin).len() ==> r == Ok::<u8, Error>(pending(origin)[k]) && follows(
            origin,
            final(reader),
            k + 1,
        ),
        k + 1 > pending(origin).len() ==> r == Err::<u8, Error>(short(pending(origin), k + 1))
            && follows(origin, final(reader), pending(origin).len() as int),
{
    let ghost mid = *reader;
    let got = reader.read_u8();
    proof {
        origin.lemma_here();
        if k + 1 <= pending(origin).len() {
            lemma_follows_on(origin, &mid, reader, k, 1);
        } else {
            lemma_follows_on(origin, &mid, reader, k, pending(origin).len() - k);
        }
    }
    match got {
        Ok(v) => Ok(v),
        Err(e) => Err(Error::Io(e)),
    }
}

pub(crate) fn take_u16<R: CoreRead>(reader: &mut R, Ghost(origin): Ghost<&R>, Ghost(k): Ghost<int>) -> (r:
    Result<u16, Error>)
    requires
        follows(origin, old(reader), k),
    ensures
        k + 2 <= pending(origin).len() ==> r == Ok::<u16, Error>(be_u16(pending(origin), k)) && follows(
            origin,
            final(reader),
            k + 2,
        ),
        k + 2 > pending(origin).len() ==> r == Err::<u16, Error>(short(pending(origin), k + 2))
            && follows(origin, final(reader), pending(origin).len() as int),
{
    let ghost mid = *reader;
    let got = reader.read_u16();
    proof {
        origin.lemma_here();
        if k + 2 <= pending(origin).len() {
            lemma_follows_on(origin, &mid, reader, k, 2);
        } else {
            lemma_follows_on(origin, &mid, reader, k, pending(origin).len() - k);
        }
    }
    match got {
        Ok(v) => Ok(v),
        Err(e) => Err(Error::Io(e)),
    }
}

pub(crate) fn take_i16<R: CoreRead>(reader: &mut R, Ghost(origin): Ghost<&R>, Ghost(k): Ghost<int>) -> (r:
    Result<i16, Error>)
    requires
        follows(origin, old(reader), k),
    ensures
        k + 2 <= pending(origin).len() ==> r == Ok::<i16, Error>(be_i16(pending(origin), k)) && follows(
            origin,
            final(reader),
            k + 2,
        ),
        k + 2 > pending(origin).len() ==> r == Err::<i16, Error>(short(pending(origin), k + 2))
            && follows(origin, final(reader), pending(origin).len() as int),
{
    let ghost mid = *reader;
    let got = reader.read_i16();
    proof {
        origin.lemma_here();
        if k + 2 <= pending(origin).len() {
            lemma_follows_on(origin, &mid, reader, k, 2);
        } else {
            lemma_follows_on(origin, &mid, reader, k, pending(origin).len() - k);
        }
    }
    match got {
        Ok(v) => Ok(v),
        Err(e) => Err(Error::Io(e)),
    }
}

pub(crate) fn take_u32<R: CoreRead>(reader: &mut R, Ghost(origin): Ghost<&R>, Ghost(k): Ghost<int>) -> (r:
    Result<u32, Error>)
    requires
        follows(origin, old(reader), k),
    ensures
        k + 4 <= pending(origin).len() ==> r == Ok::<u32, Error>(be_u32(pending(origin), k)) && follows(
            origin,
            final(reader),
            k + 4,
        ),
        k + 4 > pending(origin).len() ==> r == Err::<u32, Error>(short(pending(origin), k + 4))
            && follows(origin, final(reader), pending(origin).len() as int),
{
    let ghost mid = *reader;
    let got = reader.read_u32();
    proof {
        origin.lemma_here();
        if k + 4 <= pending(origin).len() {
            lemma_follows_on(origin, &mid, reader, k, 4);
        } else {
            lemma_follows_on(origin, &mid, reader, k, pending(origin).len() - k);
        }
    }
    match got {
        Ok(v) => Ok(v),
        Err(e) => Err(Error::Io(e)),
    }
}

pub(crate) fn take_i64<R: CoreRead>(reader: &mut R, Ghost(origin): Ghost<&R>, Ghost(k): Ghost<int>) -> (r:
    Result<i64, Error>)
    requires
        follows(origin, old(reader), k),
    ensures
        k + 8 <= pending(origin).len() ==> r == Ok::<i64, Error>(be_i64(pending(origin), k)) && follows(
            origin,
            final(reader),
            k + 8,
        ),
        k + 8 > pending(origin).len() ==> r == Err::<i64, Error>(short(pending(origin), k + 8))
            && follows(origin, final(reader), pending(origin).len() as int),
{
    let ghost mid = *reader;
    let got = reader.read_i64();
    proof {
        origin.lemma_here();
        if k + 8 <= pending(origin).len() {
            lemma_follows_on(origin, &mid, reader, k, 8);
        } else {
            lemma_follows_on(origin, &mid, reader, k, pending(origin).len() - k);
        }
    }
    match got {
        Ok(v) => Ok(v),
        Err(e) => Err(Error::Io(e)),
    }
}

pub(crate) fn take_skip<R: CoreRead>(
    reader: &mut R,
    skip: usize,
    Ghost(origin): Ghost<&R>,
    Ghost(k): Ghost<int>,
) -> (r: Result<usize, Error>)
    requires
        follows(origin, old(reader), k),
    ensures
        k + skip <= pending(origin).len() ==> r == Ok::<usize, Error>(skip) && follows(
            origin,
            final(reader),
            k + skip,
        ),
        k + skip > pending(origin).len() ==> r == Err::<usize, Error>(
            short(pending(origin), k + skip),
        ) && follows(origin, final(reader), pending(origin).len() as int),
{
    let ghost mid = *reader;
    let got = reader.skip(skip);
    proof {
        origin.lemma_here();
        if k + skip <= pending(origin).len() {
            lemma_follows_on(origin, &mid, reader, k, skip as int);
        } else {
            lemma_follows_on(origin, &mid, reader, k, pending(origin).len() - k);
        }
    }
    match got {
        Ok(v) => Ok(v),
        Err(e) => Err(Error::Io(e)),
    }
}

/// The four bytes that start at index `k` of `s`, with zero for each that
/// lies beyond its end.
pub open spec fn four_at(s: Seq<u8>, k: int) -> [u8; 4] {
    [
        byte_or_zero(s, k) as u8,
        byte_or_zero(s, k + 1) as u8,
        byte_or_zero(s, k + 2) as u8,
        byte_or_zero(s, k + 3) as u8,
    ]
}

/// Reads up to four bytes into a block that starts out as zeroes, and tells
/// how many were read.
pub(crate) fn take_four<R: CoreRead>(
    reader: &mut R,
    Ghost(origin): Ghost<&R>,
    Ghost(k): Ghost<int>,
) -> (r: ([u8; 4], usize))
    requires
        follows(origin, old(reader), k),
    ensures
        r.0 == four_at(pending(origin), k),
        r.1 as int == vstd::math::min(4, pending(origin).len() - k),
        follows(origin, final(reader), k + r.1),
{
    let ghost mid = *reader;
    let mut block = [0u8; 4];
    let read: usize = reader.read(&mut block);
    proof {
        origin.lemma_here();
        lemma_follows_on(origin, &mid, reader, k, read as int);
        assert(block@ =~= four_at(pending(origin), k)@);
        assert(block =~= four_at(pending(origin), k));
    }
    (block, read)
}

/// Reads up to `len` bytes in one go into a block of `len` bytes, and
/// tells how many were read.
pub(crate) fn take_block<R: CoreRead>(
    reader: &mut R,
    len: usize,
    Ghost(origin): Ghost<&R>,
    Ghost(k): Ghost<int>,
) -> (r: (Vec<u8>, usize))
    requires
        follows(origin, old(reader), k),
    ensures
        r.0@.len() == len,
        r.1 as int == vstd::math::min(len as int, pending(origin).len() - k),
        r.0@.take(r.1 as int) == pending(origin).subrange(k, k + r.1),
        follows(origin, final(reader), k + r.1),
{
    let ghost mid = *reader;
    let mut block: Vec<u8> = vec![0u8; len];
    let read: usize = reader.read(block.as_mut_slice());
    proof {
        origin.lemma_here();
        lemma_follows_on(origin, &mid, reader, k, read as int);
        assert(block@.take(read as int) =~= pending(origin).subrange(k, k + read));
    }
    (block, read)
}

} // verus!

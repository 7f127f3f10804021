//! Byte sources: a sequential reader over bytes held in memory, and two
//! decorators that count and checksum what flows through them.

use vstd::prelude::*;

verus! {

/// Why a byte source could not deliver what was asked of it.
#[derive(Debug, Clone, Copy, PartialEq, Eq)]
pub enum CoreReadError {
    /// The stream ended this many bytes before the request was met.
    UnexpectedEnd(usize),
}

/// The big-endian `u16` that starts at index `i` of `s`.
pub open spec fn be_u16(s: Seq<u8>, i: int) -> u16 {
    (s[i] as int * 0x100 + s[i + 1] as int) as u16
}

/// The big-endian two's-complement `i16` that starts at index `i` of `s`.
pub open spec fn be_i16(s: Seq<u8>, i: int) -> i16 {
    let u = be_u16(s, i) as int;
    if u >= 0x8000 {
        (u - 0x1_0000) as i16
    } else {
        u as i16
    }
}

/// The big-endian `u32` that starts at index `i` of `s`.
pub open spec fn be_u32(s: Seq<u8>, i: int) -> u32 {
    (s[i] as int * 0x100_0000 + s[i + 1] as int * 0x1_0000 + s[i + 2] as int * 0x100 + s[i
        + 3] as int) as u32
}

/// The big-endian two's-complement `i64` that starts at index `i` of `s`.
pub open spec fn be_i64(s: Seq<u8>, i: int) -> i64 {
    let u = be_u32(s, i) as int * 0x1_0000_0000 + be_u32(s, i + 4) as int;
    if u >= 0x8000_0000_0000_0000 {
        (u - 0x1_0000_0000_0000_0000) as i64
    } else {
        u as i64
    }
}

/// The bytes that a source at position `pos` of `stream` has yet to deliver.
pub open spec fn rest(stream: Seq<u8>, pos: nat) -> Seq<u8> {
    stream.skip(pos as int)
}

/// A sequential source of bytes.
///
/// A source is described by the whole stream it delivers and by how far into
/// that stream it has come. Reading never alters the stream, only the
/// position: `at` names the source as it is once it has reached a position.
pub trait CoreRead: Sized {
    /// The invariant of the source.
    spec fn wf(&self) -> bool;

    /// Every byte that the source delivers, from its first to its last.
    spec fn stream(&self) -> Seq<u8>;

    /// How many bytes of the stream have been delivered.
    spec fn pos(&self) -> nat;

    /// This source once it has delivered exactly `pos` bytes.
    spec fn at(&self, pos: nat) -> Self;

    /// The position lies within the stream, whose length fits a `usize`, and
    /// a source is itself at its own position.
    proof fn lemma_here(&self)
        requires
            self.wf(),
        ensures
            self.pos() <= self.stream().len() <= usize::MAX,
            self.at(self.pos()) == *self,
    ;

    /// Moving a source keeps its stream and its invariant, and only the last
    /// of several moves counts.
    proof fn lemma_at(&self, p: nat, q: nat)
        requires
            self.wf(),
            p <= self.stream().len(),
            q <= self.stream().len(),
        ensures
            self.at(p).wf(),
            self.at(p).stream() == self.stream(),
            self.at(p).pos() == p,
            self.at(p).at(q) == self.at(q),
    ;

    /// Fills `buf` from the front with the next bytes of the stream, as many
    /// as it holds or as are left, and returns how many that was. The rest
    /// of `buf` keeps what it held.
    fn read(&mut self, buf: &mut [u8]) -> (n: usize)
        requires
            old(self).wf(),
        ensures
            final(self).wf(),
            n as int == vstd::math::min(
                old(buf)@.len() as int,
                old(self).stream().len() - old(self).pos(),
            ),
            *final(self) == old(self).at(old(self).pos() + n as nat),
            final(buf)@ == old(self).stream().subrange(
                old(self).pos() as int,
                old(self).pos() + n,
            ) + old(buf)@.skip(n as int),
    ;

    /// How many bytes the source has delivered so far.
    fn total_read(&self) -> (n: usize)
        requires
            self.wf(),
        ensures
            n == self.pos(),
    ;

    /// Discards the next `skip` bytes. Where fewer are left, the source is
    /// drained and the error tells how many were missing.
    fn skip(&mut self, skip: usize) -> (r: Result<usize, CoreReadError>)
        requires
            old(self).wf(),
        ensures
            final(self).wf(),
            old(self).pos() + skip <= old(self).stream().len() ==> r == Ok::<usize, CoreReadError>(skip)
                && *final(self) == old(self).at(old(self).pos() + skip as nat),
            old(self).pos() + skip > old(self).stream().len() ==> r == Err::<usize, CoreReadError>(
                CoreReadError::UnexpectedEnd(
                    (old(self).pos() + skip - old(self).stream().len()) as usize,
                ),
            ) && *final(self) == old(self).at(old(self).stream().len()),
    {
        let mut buf = [0u8; 1];
        let mut total: usize = 0;
        proof {
            self.lemma_here();
        }
        while total != skip
            invariant
                self.wf(),
                old(self).wf(),
                total <= skip,
                old(self).pos() + total <= old(self).stream().len(),
                *self == old(self).at(old(self).pos() + total as nat),
            decreases skip - total,
        {
            proof {
                old(self).lemma_at(old(self).pos() + total as nat, old(self).pos() + total as nat);
            }
            let read: usize = self.read(&mut buf);
            proof {
                old(self).lemma_at(
                    old(self).pos() + total as nat,
                    old(self).pos() + total as nat + read as nat,
                );
            }
            if read != 1 {
                return Err(CoreReadError::UnexpectedEnd(skip - total));
            }
            total += read;
        }
        Ok(total)
    }

    /// Reads a big-endian `u8`. Where fewer than 1 byte(s) are left, the
    /// source is drained and the error tells how many were missing.
    fn read_u8(&mut self) -> (r: Result<u8, CoreReadError>)
        requires
            old(self).wf(),
        ensures
            final(self).wf(),
            old(self).pos() + 1 <= old(self).stream().len() ==> r == Ok::<u8, CoreReadError>(
                old(self).stream()[old(self).pos() as int],
            ) && *final(self) == old(self).at(old(self).pos() + 1),
            old(self).pos() + 1 > old(self).stream().len() ==> r == Err::<u8, CoreReadError>(
                CoreReadError::UnexpectedEnd(
                    (old(self).pos() + 1 - old(self).stream().len()) as usize,
                ),
            ) && *final(self) == old(self).at(old(self).stream().len()),
    {
        let mut bytes = [0u8; 1];
        proof {
            self.lemma_here();
        }
        let read: usize = self.read(&mut bytes);
        if read != 1 {
            return Err(CoreReadError::UnexpectedEnd(1 - read));
        }
        Ok(bytes[0])
    }

    /// Reads a big-endian `u16`. Where fewer than 2 byte(s) are left, the
    /// source is drained and the error tells how many were missing.
    fn read_u16(&mut self) -> (r: Result<u16, CoreReadError>)
        requires
            old(self).wf(),
        ensures
            final(self).wf(),
            old(self).pos() + 2 <= old(self).stream().len() ==> r == Ok::<u16, CoreReadError>(
                be_u16(old(self).stream(), old(self).pos() as int),
            ) && *final(self) == old(self).at(old(self).pos() + 2),
            old(self).pos() + 2 > old(self).stream().len() ==> r == Err::<u16, CoreReadError>(
                CoreReadError::UnexpectedEnd(
                    (old(self).pos() + 2 - old(self).stream().len()) as usize,
                ),
            ) && *final(self) == old(self).at(old(self).stream().len()),
    {
        let mut bytes = [0u8; 2];
        proof {
            self.lemma_here();
        }
        let read: usize = self.read(&mut bytes);
        if read != 2 {
            return Err(CoreReadError::UnexpectedEnd(2 - read));
        }
        Ok(bytes[0] as u16 * 0x100 + bytes[1] as u16)
    }

    /// Reads a big-endian `i16`. Where fewer than 2 byte(s) are left, the
    /// source is drained and the error tells how many were missing.
    fn read_i16(&mut self) -> (r: Result<i16, CoreReadError>)
        requires
            old(self).wf(),
        ensures
            final(self).wf(),
            old(self).pos() + 2 <= old(self).stream().len() ==> r == Ok::<i16, CoreReadError>(
                be_i16(old(self).stream(), old(self).pos() as int),
            ) && *final(self) == old(self).at(old(self).pos() + 2),
            old(self).pos() + 2 > old(self).stream().len() ==> r == Err::<i16, CoreReadError>(
                CoreReadError::UnexpectedEnd(
                    (old(self).pos() + 2 - old(self).stream().len()) as usize,
                ),
            ) && *final(self) == old(self).at(old(self).stream().len()),
    {
        let mut bytes = [0u8; 2];
        proof {
            self.lemma_here();
        }
        let read: usize = self.read(&mut bytes);
        if read != 2 {
            return Err(CoreReadError::UnexpectedEnd(2 - read));
        }
        let u: u16 = bytes[0] as u16 * 0x100 + bytes[1] as u16;
        if u >= 0x8000 {
            Ok((u as i32 - 0x1_0000) as i16)
        } else {
            Ok(u as i16)
        }
    }

    /// Reads a big-endian `u32`. Where fewer than 4 byte(s) are left, the
    /// source is drained and the error tells how many were missing.
    fn read_u32(&mut self) -> (r: Result<u32, CoreReadError>)
        requires
            old(self).wf(),
        ensures
            final(self).wf(),
            old(self).pos() + 4 <= old(self).stream().len() ==> r == Ok::<u32, CoreReadError>(
                be_u32(old(self).stream(), old(self).pos() as int),
            ) && *final(self) == old(self).at(old(self).pos() + 4),
            old(self).pos() + 4 > old(self).stream().len() ==> r == Err::<u32, CoreReadError>(
                CoreReadError::UnexpectedEnd(
                    (old(self).pos() + 4 - old(self).stream().len()) as usize,
                ),
            ) && *final(self) == old(self).at(old(self).stream().len()),
    {
        let mut bytes = [0u8; 4];
        proof {
            self.lemma_here();
        }
        let read: usize = self.read(&mut bytes);
        if read != 4 {
            return Err(CoreReadError::UnexpectedEnd(4 - read));
        }
        Ok(
            bytes[0] as u32 * 0x100_0000 + bytes[1] as u32 * 0x1_0000 + bytes[2] as u32 * 0x100
                + bytes[3] as u32,
        )
    }

    /// Reads a big-endian `i64`. Where fewer than 8 byte(s) are left, the
    /// source is drained and the error tells how many were missing.
    fn read_i64(&mut self) -> (r: Result<i64, CoreReadError>)
        requires
            old(self).wf(),
        ensures
            final(self).wf(),
            old(self).pos() + 8 <= old(self).stream().len() ==> r == Ok::<i64, CoreReadError>(
                be_i64(old(self).stream(), old(self).pos() as int),
            ) && *final(self) == old(self).at(old(self).pos() + 8),
            old(self).pos() + 8 > old(self).stream().len() ==> r == Err::<i64, CoreReadError>(
                CoreReadError::UnexpectedEnd(
                    (old(self).pos() + 8 - old(self).stream().len()) as usize,
                ),
            ) && *final(self) == old(self).at(old(self).stream().len()),
    {
        let mut bytes = [0u8; 8];
        proof {
            self.lemma_here();
        }
        let read: usize = self.read(&mut bytes);
        if read != 8 {
            return Err(CoreReadError::UnexpectedEnd(8 - read));
        }
        let hi: u32 = bytes[0] as u32 * 0x100_0000 + bytes[1] as u32 * 0x1_0000 + bytes[2] as u32
            * 0x100 + bytes[3] as u32;
        let lo: u32 = bytes[4] as u32 * 0x100_0000 + bytes[5] as u32 * 0x1_0000 + bytes[6] as u32
            * 0x100 + bytes[7] as u32;
        let u: u64 = hi as u64 * 0x1_0000_0000 + lo as u64;
        if u >= 0x8000_0000_0000_0000 {
            Ok((u as i128 - 0x1_0000_0000_0000_0000) as i64)
        } else {
            Ok(u as i64)
        }
    }
}

} // verus!

verus! {

/// Bytes held in memory, delivered from the first to the last.
pub struct SliceReader<'a> {
    data: &'a [u8],
    pos: usize,
}

impl<'a> SliceReader<'a> {
    /// A source that will deliver `data` from its first byte on.
    pub fn new(data: &'a [u8]) -> (reader: Self)
        ensures
            reader.wf(),
            reader.stream() == data@,
            reader.pos() == 0,
    {
        let len: usize = data.len();
        assert(data@.len() == len);
        SliceReader { data, pos: 0 }
    }
}

impl<'a> CoreRead for SliceReader<'a> {
    closed spec fn wf(&self) -> bool {
        self.pos <= self.data@.len() <= usize::MAX
    }

    closed spec fn stream(&self) -> Seq<u8> {
        self.data@
    }

    closed spec fn pos(&self) -> nat {
        self.pos as nat
    }

    closed spec fn at(&self, pos: nat) -> Self {
        SliceReader { data: self.data, pos: pos as usize }
    }

    proof fn lemma_here(&self) {
    }

    proof fn lemma_at(&self, p: nat, q: nat) {
    }

    fn read(&mut self, buf: &mut [u8]) -> (n: usize) {
        let mut n: usize = 0;
        while n < buf.len() && self.pos < self.data.len()
            invariant
                n <= buf@.len(),
                buf@.len() == old(buf)@.len(),
                self.data == old(self).data,
                old(self).pos <= self.data@.len(),
                self.pos == old(self).pos + n,
                self.pos <= self.data@.len(),
                buf@ == self.data@.subrange(old(self).pos as int, old(self).pos + n) + old(
                    buf,
                )@.skip(n as int),
            decreases buf@.len() - n,
        {
            buf[n] = self.data[self.pos];
            self.pos = self.pos + 1;
            n = n + 1;
            assert(buf@ =~= self.data@.subrange(old(self).pos as int, old(self).pos + n) + old(
                buf,
            )@.skip(n as int));
        }
        n
    }

    fn total_read(&self) -> (n: usize) {
        self.pos
    }
}

/// A source that counts the bytes it has passed on from another source.
pub struct TrackingReader<R: CoreRead> {
    reader: R,
    index: usize,
}

impl<R: CoreRead> TrackingReader<R> {
    /// The wrapped source as it stands.
    pub closed spec fn inner(&self) -> R {
        self.reader
    }

    /// Counts from zero what `reader` delivers from now on.
    pub fn new(reader: R) -> (tracker: Self)
        requires
            reader.wf(),
        ensures
            tracker.wf(),
            tracker.inner() == reader,
            tracker.stream() == rest(reader.stream(), reader.pos()),
            tracker.pos() == 0,
    {
        proof {
            reader.lemma_here();
        }
        TrackingReader { reader, index: 0 }
    }

    /// Gives the count of bytes passed on, and the wrapped source back.
    pub fn finish(self) -> (r: (usize, R))
        requires
            self.wf(),
        ensures
            r.0 == self.pos(),
            r.1 == self.inner(),
    {
        (self.index, self.reader)
    }

    /// Where the wrapped source stands once the tracker has passed on `p`
    /// bytes: as far beyond its own position as `p` is beyond the count.
    pub proof fn lemma_inner(&self, p: nat)
        requires
            self.wf(),
            p <= self.stream().len(),
        ensures
            self.pos() <= self.inner().pos(),
            self.inner().wf(),
            self.stream() == rest(
                self.inner().stream(),
                (self.inner().pos() - self.pos()) as nat,
            ),
            self.at(p).inner() == self.inner().at((self.inner().pos() - self.pos() + p) as nat),
    {
    }
}

impl<R: CoreRead> CoreRead for TrackingReader<R> {
    closed spec fn wf(&self) -> bool {
        &&& self.reader.wf()
        &&& self.index <= self.reader.pos()
    }

    closed spec fn stream(&self) -> Seq<u8> {
        self.reader.stream().skip(self.reader.pos() - self.index)
    }

    closed spec fn pos(&self) -> nat {
        self.index as nat
    }

    closed spec fn at(&self, pos: nat) -> Self {
        TrackingReader {
            reader: self.reader.at((self.reader.pos() - self.index + pos) as nat),
            index: pos as usize,
        }
    }

    proof fn lemma_here(&self) {
        self.reader.lemma_here();
    }

    proof fn lemma_at(&self, p: nat, q: nat) {
        self.reader.lemma_here();
        let base = (self.reader.pos() - self.index) as nat;
        self.reader.lemma_at(base + p, base + q);
    }

    fn read(&mut self, buf: &mut [u8]) -> (n: usize) {
        proof {
            self.reader.lemma_here();
            self.reader.lemma_at(self.reader.pos(), self.reader.pos());
        }
        let n: usize = self.reader.read(buf);
        proof {
            old(self).reader.lemma_at(old(self).reader.pos() + n as nat, 0);
            assert(old(self).stream().subrange(old(self).pos() as int, old(self).pos() + n)
                =~= old(self).reader.stream().subrange(
                old(self).reader.pos() as int,
                old(self).reader.pos() + n,
            ));
        }
        self.index = self.index + n;
        n
    }

    fn total_read(&self) -> (n: usize) {
        self.index
    }
}

} // verus!

verus! {

/// The byte at index `i` of `s`, or zero beyond its end.
pub open spec fn byte_or_zero(s: Seq<u8>, i: int) -> int {
    if 0 <= i < s.len() {
        s[i] as int
    } else {
        0
    }
}

/// The `k`-th big-endian 32-bit word of `s`, padded with zero bytes where
/// `s` ends inside it.
pub open spec fn word_at(s: Seq<u8>, k: int) -> int {
    byte_or_zero(s, 4 * k) * 0x100_0000 + byte_or_zero(s, 4 * k + 1) * 0x1_0000 + byte_or_zero(
        s,
        4 * k + 2,
    ) * 0x100 + byte_or_zero(s, 4 * k + 3)
}

/// The sum of the first `n` words of `s`.
pub open spec fn word_sum(s: Seq<u8>, n: nat) -> int
    decreases n,
{
    if n == 0 {
        0
    } else {
        word_sum(s, (n - 1) as nat) + word_at(s, n - 1)
    }
}

/// The checksum of a run of bytes: the sum, modulo 2^32, of its big-endian
/// 32-bit words, the last one padded with zero bytes.
pub open spec fn checksum(s: Seq<u8>) -> u32 {
    (word_sum(s, ((s.len() + 3) / 4) as nat) % 0x1_0000_0000) as u32
}

/// The bytes that a source has delivered so far.
pub open spec fn consumed<R: CoreRead>(reader: &R) -> Seq<u8> {
    reader.stream().take(reader.pos() as int)
}

/// The sum, modulo 2^32, of the words that lie wholly within the first `m`
/// bytes of `s`.
pub closed spec fn folded(s: Seq<u8>, m: nat) -> u32 {
    (word_sum(s, m / 4) % 0x1_0000_0000) as u32
}

/// The big-endian value of the bytes of a word begun at the end of
/// the first `m` bytes of `s`.
pub closed spec fn carried(s: Seq<u8>, m: nat) -> u32 {
    let b = 4 * (m / 4) as int;
    if m % 4 == 0 {
        0
    } else if m % 4 == 1 {
        s[b] as u32
    } else if m % 4 == 2 {
        (s[b] as int * 0x100 + s[b + 1] as int) as u32
    } else {
        (s[b] as int * 0x1_0000 + s[b + 1] as int * 0x100 + s[b + 2] as int) as u32
    }
}

proof fn lemma_fold_step(s: Seq<u8>, m: nat)
    requires
        m < s.len(),
    ensures
        carried(s, m) < 0x100_0000,
        (m + 1) % 4 != 0 ==> folded(s, m + 1) == folded(s, m) && carried(s, m + 1) == carried(s, m)
            * 0x100 + s[m as int],
        (m + 1) % 4 == 0 ==> carried(s, m + 1) == 0 && folded(s, m + 1) as int == (folded(s, m)
            + carried(s, m) * 0x100 + s[m as int]) % 0x1_0000_0000,
{
    if (m + 1) % 4 == 0 {
        let k = m / 4;
        assert((m + 1) / 4 == k + 1);
        assert(m == 4 * k + 3);
        assert(word_sum(s, k + 1) == word_sum(s, k) + word_at(s, k as int));
        assert(word_at(s, k as int) == carried(s, m) * 0x100 + s[m as int]);
    } else {
        assert((m + 1) / 4 == m / 4);
    }
}

proof fn lemma_word_sum_take(s: Seq<u8>, m: nat, k: nat)
    requires
        4 * k <= m <= s.len(),
    ensures
        word_sum(s.take(m as int), k) == word_sum(s, k),
    decreases k,
{
    if k > 0 {
        lemma_word_sum_take(s, m, (k - 1) as nat);
        assert(word_at(s.take(m as int), k - 1) == word_at(s, k - 1));
    }
}

/// What the folded words and the word begun add up to is the checksum
/// of the bytes seen.
proof fn lemma_checksum_of_prefix(s: Seq<u8>, m: nat)
    requires
        m <= s.len(),
    ensures
        m % 4 == 0 ==> checksum(s.take(m as int)) == folded(s, m),
        m % 4 == 1 ==> checksum(s.take(m as int)) as int == (folded(s, m) + carried(s, m)
            * 0x100_0000) % 0x1_0000_0000,
        m % 4 == 2 ==> checksum(s.take(m as int)) as int == (folded(s, m) + carried(s, m)
            * 0x1_0000) % 0x1_0000_0000,
        m % 4 == 3 ==> checksum(s.take(m as int)) as int == (folded(s, m) + carried(s, m) * 0x100)
            % 0x1_0000_0000,
{
    let t = s.take(m as int);
    let k = m / 4;
    lemma_word_sum_take(s, m, k);
    if m % 4 == 0 {
        assert((t.len() + 3) / 4 == k);
    } else {
        assert((t.len() + 3) / 4 == k + 1);
        assert(word_sum(t, k + 1) == word_sum(t, k) + word_at(t, k as int));
    }
}

proof fn lemma_word_sum_update(s: Seq<u8>, i: int, b: u8, n: nat)
    requires
        0 <= i < s.len(),
    ensures
        n <= i / 4 ==> word_sum(s.update(i, b), n) == word_sum(s, n),
        n > i / 4 && i % 4 == 0 ==> word_sum(s.update(i, b), n) == word_sum(s, n) + (b - s[i])
            * 0x100_0000,
        n > i / 4 && i % 4 == 1 ==> word_sum(s.update(i, b), n) == word_sum(s, n) + (b - s[i])
            * 0x1_0000,
        n > i / 4 && i % 4 == 2 ==> word_sum(s.update(i, b), n) == word_sum(s, n) + (b - s[i])
            * 0x100,
        n > i / 4 && i % 4 == 3 ==> word_sum(s.update(i, b), n) == word_sum(s, n) + (b - s[i]),
    decreases n,
{
    if n > 0 {
        lemma_word_sum_update(s, i, b, (n - 1) as nat);
        let t = s.update(i, b);
        let k = n - 1;
        if k != i / 4 {
            assert(word_at(t, k) == word_at(s, k));
        }
    }
}

/// A checksum tells any two runs of bytes apart that differ in one byte
/// only.
pub proof fn lemma_checksum_detects_change(s: Seq<u8>, i: int, b: u8)
    requires
        0 <= i < s.len(),
        b != s[i],
    ensures
        checksum(s.update(i, b)) != checksum(s),
{
    let n = ((s.len() + 3) / 4) as nat;
    lemma_word_sum_update(s, i, b, n);
    assert(n > i / 4);
    let d = word_sum(s.update(i, b), n) - word_sum(s, n);
    assert(d != 0 && -0x1_0000_0000 < d < 0x1_0000_0000);
}

/// A checksum depends on nothing but the bytes: equal runs have equal
/// checksums.
pub proof fn lemma_checksum_is_a_function(a: Seq<u8>, b: Seq<u8>)
    requires
        a =~= b,
    ensures
        checksum(a) == checksum(b),
{
}

} // verus!

verus! {

/// A source that passes on the bytes of another source, no more than a set
/// number of them, and sums them up as 32-bit words while they pass.
pub struct ChecksumReader<R: CoreRead> {
    reader: R,
    index: usize,
    checksum: u32,
    next_add: u32,
    limit: usize,
}

impl<R: CoreRead> ChecksumReader<R> {
    /// The wrapped source as it stands.
    pub closed spec fn inner(&self) -> R {
        self.reader
    }

    /// The most bytes that this reader passes on.
    pub closed spec fn limit(&self) -> nat {
        self.limit as nat
    }

    /// Sums up all that `reader` delivers from now on.
    pub fn new(reader: R) -> (sum: Self)
        requires
            reader.wf(),
        ensures
            sum.wf(),
            sum.inner() == reader,
            sum.stream() == rest(reader.stream(), reader.pos()),
            sum.pos() == 0,
    {
        proof {
            reader.lemma_here();
            assert(rest(reader.stream(), reader.pos()) =~= reader.stream().subrange(
                reader.pos() as int,
                reader.stream().len() as int,
            ));
        }
        ChecksumReader { reader, index: 0, checksum: 0, next_add: 0, limit: usize::MAX }
    }

    /// Sums up the next `limit` bytes that `reader` delivers, or all that
    /// are left where those are fewer; to its own readers the stream ends
    /// there.
    pub fn scoped(reader: R, limit: usize) -> (sum: Self)
        requires
            reader.wf(),
        ensures
            sum.wf(),
            sum.inner() == reader,
            sum.limit() == limit,
            sum.stream() == rest(reader.stream(), reader.pos()).take(
                vstd::math::min(limit as int, reader.stream().len() - reader.pos()),
            ),
            sum.pos() == 0,
    {
        proof {
            reader.lemma_here();
            assert(rest(reader.stream(), reader.pos()).take(
                vstd::math::min(limit as int, reader.stream().len() - reader.pos()),
            ) =~= reader.stream().subrange(
                reader.pos() as int,
                vstd::math::min(reader.stream().len() as int, reader.pos() + limit),
            ));
        }
        ChecksumReader { reader, index: 0, checksum: 0, next_add: 0, limit }
    }

    /// Gives the checksum of the bytes passed on, and the wrapped source
    /// back. A last word that was only begun counts as if zero bytes had
    /// completed it; none are read for it.
    pub fn finish(self) -> (r: (u32, R))
        requires
            self.wf(),
        ensures
            r.0 == checksum(consumed(&self)),
            r.1 == self.inner(),
    {
        proof {
            self.lemma_here();
            lemma_checksum_of_prefix(self.stream(), self.pos());
            if self.pos() < self.stream().len() {
                lemma_fold_step(self.stream(), self.pos());
            } else if self.pos() > 0 {
                lemma_carried_bound(self.stream(), self.pos());
            }
        }
        let part: usize = self.index % 4;
        let sum: u32 = if part == 0 {
            self.checksum
        } else if part == 1 {
            self.checksum.wrapping_add(self.next_add * 0x100_0000)
        } else if part == 2 {
            self.checksum.wrapping_add(self.next_add * 0x1_0000)
        } else {
            self.checksum.wrapping_add(self.next_add * 0x100)
        };
        (sum, self.reader)
    }

    /// Where the wrapped source stands once this reader has passed on `p`
    /// bytes: as far beyond its own position as `p` is beyond the count.
    pub proof fn lemma_inner(&self, p: nat)
        requires
            self.wf(),
            p <= self.stream().len(),
        ensures
            self.pos() <= self.inner().pos(),
            self.inner().wf(),
            self.stream() == rest(
                self.inner().stream(),
                (self.inner().pos() - self.pos()) as nat,
            ).take(
                vstd::math::min(
                    self.limit() as int,
                    self.inner().stream().len() - (self.inner().pos() - self.pos()),
                ),
            ),
            self.at(p).inner() == self.inner().at((self.inner().pos() - self.pos() + p) as nat),
            self.at(p).limit() == self.limit(),
    {
        self.reader.lemma_here();
        let base = self.reader.pos() - self.index;
        assert(self.stream() =~= rest(self.inner().stream(), base as nat).take(
            vstd::math::min(self.limit() as int, self.inner().stream().len() - base),
        ));
    }
}

proof fn lemma_carried_bound(s: Seq<u8>, m: nat)
    requires
        0 < m <= s.len(),
    ensures
        m % 4 == 1 ==> carried(s, m) < 0x100,
        m % 4 == 2 ==> carried(s, m) < 0x1_0000,
        m % 4 == 3 ==> carried(s, m) < 0x100_0000,
{
}

impl<R: CoreRead> CoreRead for ChecksumReader<R> {
    closed spec fn wf(&self) -> bool {
        &&& self.reader.wf()
        &&& self.index <= self.reader.pos()
        &&& self.index <= self.limit
        &&& self.checksum == folded(self.stream(), self.index as nat)
        &&& self.next_add == carried(self.stream(), self.index as nat)
    }

    closed spec fn stream(&self) -> Seq<u8> {
        let base = self.reader.pos() - self.index;
        self.reader.stream().subrange(
            base,
            vstd::math::min(self.reader.stream().len() as int, base + self.limit),
        )
    }

    closed spec fn pos(&self) -> nat {
        self.index as nat
    }

    closed spec fn at(&self, pos: nat) -> Self {
        ChecksumReader {
            reader: self.reader.at((self.reader.pos() - self.index + pos) as nat),
            index: pos as usize,
            checksum: folded(self.stream(), pos),
            next_add: carried(self.stream(), pos),
            limit: self.limit,
        }
    }

    proof fn lemma_here(&self) {
        self.reader.lemma_here();
    }

    proof fn lemma_at(&self, p: nat, q: nat) {
        self.reader.lemma_here();
        let base = (self.reader.pos() - self.index) as nat;
        self.reader.lemma_at(base + p, base + q);
        assert(self.at(p).stream() =~= self.stream());
    }

    fn read(&mut self, buf: &mut [u8]) -> (n: usize) {
        proof {
            self.lemma_here();
            self.reader.lemma_here();
        }
        let ghost s = self.stream();
        let ghost base = (self.reader.pos() - self.index) as nat;
        let room: usize = self.limit - self.index;
        let n: usize = if buf.len() <= room {
            self.reader.read(buf)
        } else {
            let (head, _) = buf.split_at_mut(room);
            self.reader.read(head)
        };
        proof {
            old(self).reader.lemma_at(base + self.index as nat + n as nat, 0);
            assert(buf@ =~= s.subrange(self.index as int, self.index + n) + old(buf)@.skip(
                n as int,
            ));
        }
        let mut i: usize = 0;
        while i < n
            invariant
                i <= n,
                self.index + n <= s.len() <= usize::MAX,
                self.index == old(self).index,
                self.limit == old(self).limit,
                self.reader == old(self).reader.at(base + self.index as nat + n as nat),
                self.checksum == folded(s, (self.index + i) as nat),
                self.next_add == carried(s, (self.index + i) as nat),
                buf@.len() >= n,
                forall|j: int| 0 <= j < n ==> buf@[j] == s[self.index + j],
            decreases n - i,
        {
            proof {
                lemma_fold_step(s, (self.index + i) as nat);
            }
            self.next_add = self.next_add * 0x100 + buf[i] as u32;
            i = i + 1;
            if (self.index + i) % 4 == 0 {
                self.checksum = self.checksum.wrapping_add(self.next_add);
                self.next_add = 0;
            }
        }
        self.index = self.index + n;
        proof {
            assert(self.stream() =~= s);
        }
        n
    }

    fn total_read(&self) -> (n: usize) {
        self.index
    }
}

} // verus!

//! `loca`: where each glyph lies in `glyf`.

use vstd::prelude::*;

use crate::tables::{first_head, first_maxp, head_of, maxp_of, Table, TableView};
use crate::types::cursor::{
    follows, lemma_follows_start, moved, pending, short, take_u16, take_u32,
};
use crate::types::io::{be_u16, be_u32, CoreRead};
use crate::types::{Error, ValidType};

verus! {

pub type ParsedType = Type;

/// The offsets of the glyphs into `glyf`, one more than there are glyphs,
/// none smaller than the one before it.
#[derive(Debug)]
pub struct Type {
    offsets: Vec<u32>,
}

/// No element of `offsets` is smaller than the one before it.
pub open spec fn non_decreasing(offsets: Seq<u32>) -> bool {
    forall|i: int, j: int| 0 <= i <= j < offsets.len() ==> offsets[i] <= offsets[j]
}

impl View for Type {
    type V = Seq<u32>;

    closed spec fn view(&self) -> Seq<u32> {
        self.offsets@
    }
}

impl Type {
    #[verifier::type_invariant]
    spec fn inv(&self) -> bool {
        self.offsets@.len() >= 1 && non_decreasing(self.offsets@)
    }

    /// The invariant of the type: one offset at least, and none smaller
    /// than the one before it.
    pub open spec fn wf(&self) -> bool {
        self@.len() >= 1 && non_decreasing(self@)
    }

    /// Where glyph `idx` starts in `glyf`, and how many bytes it takes.
    pub fn index(&self, idx: usize) -> (r: (u32, u32))
        requires
            idx + 1 < self@.len(),
        ensures
            self.wf(),
            r.0 == self@[idx as int],
            r.1 == self@[idx + 1] - self@[idx as int],
    {
        proof {
            use_type_invariant(self);
        }
        let len: usize = self.offsets.len();
        assert(idx + 1 < len);
        (self.offsets[idx], self.offsets[idx + 1] - self.offsets[idx])
    }

    /// The number of glyphs.
    pub fn len(&self) -> (n: usize)
        ensures
            self.wf(),
            n == self@.len() - 1,
    {
        proof {
            use_type_invariant(self);
        }
        self.offsets.len() - 1
    }
}

/// The offset that entry `i` of the table stands for: a 32-bit number in
/// the long format, twice a 16-bit number in the short one.
pub open spec fn entry(s: Seq<u8>, long: bool, i: int) -> u32 {
    if long {
        be_u32(s, 4 * i)
    } else {
        (be_u16(s, 2 * i) as int * 2) as u32
    }
}

/// The number of bytes of one entry.
pub open spec fn width(long: bool) -> int {
    if long {
        4
    } else {
        2
    }
}

/// Entries `done.len()` to `n` of the table, added to `done`. An entry that
/// is cut short, or smaller than the one before it, is an error.
pub open spec fn entries(s: Seq<u8>, long: bool, n: nat, done: Seq<u32>) -> Result<Seq<u32>, Error>
    decreases n - done.len(),
{
    let i = done.len() as int;
    if i >= n {
        Ok(done)
    } else if s.len() < width(long) * (i + 1) {
        Err(short(s, width(long) * (i + 1)))
    } else if i > 0 && entry(s, long, i) < done[i - 1] {
        Err(
            Error::Parsing {
                variable: "loca",
                expected: ValidType::U32(
                    if done[i - 1] == u32::MAX {
                        u32::MAX
                    } else {
                        (done[i - 1] + 1) as u32
                    },
                ),
                parsed: ValidType::U32(entry(s, long, i)),
            },
        )
    } else {
        entries(s, long, n, done.push(entry(s, long, i)))
    }
}

/// What the bytes `s` hold as a `loca` table, given the tables decoded
/// before it: `head` says how wide an entry is, `maxp` how many glyphs there
/// are, and there is one entry more than glyphs.
pub open spec fn decode(prev: Seq<TableView>, s: Seq<u8>) -> Result<Seq<u32>, Error> {
    if head_of(prev) is None {
        Err(Error::MissingTable { missing: "head", parsing: "loca" })
    } else if maxp_of(prev) is None {
        Err(Error::MissingTable { missing: "maxp", parsing: "loca" })
    } else {
        entries(
            s,
            head_of(prev).unwrap().long_offset,
            (maxp_of(prev).unwrap().glyphs() + 1) as nat,
            Seq::empty(),
        )
    }
}

/// Whatever `entries` accepts is as long as was asked for and holds no
/// element smaller than the one before it, if what it started from was so.
proof fn lemma_entries_sorted(s: Seq<u8>, long: bool, n: nat, done: Seq<u32>)
    requires
        non_decreasing(done),
        done.len() <= n,
    ensures
        entries(s, long, n, done) matches Ok(offsets) ==> offsets.len() == n && non_decreasing(
            offsets,
        ),
    decreases n - done.len(),
{
    let i = done.len() as int;
    if i < n && s.len() >= width(long) * (i + 1) && !(i > 0 && entry(s, long, i) < done[i - 1]) {
        let next = done.push(entry(s, long, i));
        assert forall|a: int, b: int| 0 <= a <= b < next.len() implies next[a] <= next[b] by {
            if b == i && a < i {
                assert(done[a] <= done[i - 1]);
            }
        }
        lemma_entries_sorted(s, long, n, next);
    }
}

/// A table that is accepted holds one offset more than there are glyphs,
/// each the entry of the table at its index, and none smaller than the one
/// before it.
pub proof fn lemma_accepted_is_sorted(prev: Seq<TableView>, s: Seq<u8>)
    ensures
        decode(prev, s) matches Ok(offsets) ==> {
            &&& offsets.len() == maxp_of(prev).unwrap().glyphs() + 1
            &&& non_decreasing(offsets)
            &&& forall|i: int|
                0 <= i < offsets.len() ==> offsets[i] == entry(
                    s,
                    head_of(prev).unwrap().long_offset,
                    i,
                )
        },
{
    if head_of(prev) is Some && maxp_of(prev) is Some {
        let long = head_of(prev).unwrap().long_offset;
        let n = (maxp_of(prev).unwrap().glyphs() + 1) as nat;
        lemma_entries_sorted(s, long, n, Seq::empty());
        lemma_entries_are_entries(s, long, n, Seq::empty());
    }
}

proof fn lemma_sorted_is_accepted(s: Seq<u8>, long: bool, n: nat, done: Seq<u32>)
    requires
        done.len() <= n,
        s.len() >= width(long) * n,
        forall|i: int| 0 < i < n ==> entry(s, long, i - 1) <= #[trigger] entry(s, long, i),
        forall|i: int| 0 <= i < done.len() ==> done[i] == entry(s, long, i),
    ensures
        entries(s, long, n, done) is Ok,
    decreases n - done.len(),
{
    let i = done.len() as int;
    if i < n {
        if i > 0 {
            assert(entry(s, long, i - 1) <= entry(s, long, i));
        }
        lemma_sorted_is_accepted(s, long, n, done.push(entry(s, long, i)));
    }
}

/// A table that holds an entry for each glyph and one more, none of them
/// smaller than the one before it, is accepted, where `head` and `maxp` were
/// decoded before it.
pub proof fn lemma_sorted_table_is_accepted(prev: Seq<TableView>, s: Seq<u8>)
    requires
        head_of(prev) is Some,
        maxp_of(prev) is Some,
        s.len() >= width(head_of(prev)->Some_0.long_offset) * (maxp_of(prev)->Some_0.glyphs() + 1),
        forall|i: int|
            0 < i <= maxp_of(prev)->Some_0.glyphs() ==> entry(
                s,
                head_of(prev)->Some_0.long_offset,
                i - 1,
            ) <= #[trigger] entry(s, head_of(prev)->Some_0.long_offset, i),
    ensures
        decode(prev, s) is Ok,
{
    lemma_sorted_is_accepted(
        s,
        head_of(prev)->Some_0.long_offset,
        (maxp_of(prev)->Some_0.glyphs() + 1) as nat,
        Seq::empty(),
    );
}

/// A table in which entry `i` is smaller than the entry before it is never
/// accepted.
pub proof fn lemma_decreasing_fails(prev: Seq<TableView>, s: Seq<u8>, i: int)
    requires
        head_of(prev) is Some,
        maxp_of(prev) is Some,
        0 < i <= maxp_of(prev).unwrap().glyphs(),
        entry(s, head_of(prev).unwrap().long_offset, i) < entry(
            s,
            head_of(prev).unwrap().long_offset,
            i - 1,
        ),
    ensures
        decode(prev, s) is Err,
{
    lemma_accepted_is_sorted(prev, s);
    if let Ok(offsets) = decode(prev, s) {
        assert(offsets[i - 1] <= offsets[i]);
    }
}

/// Whatever `entries` accepts holds, at each index, the entry of the table
/// at that index.
proof fn lemma_entries_are_entries(s: Seq<u8>, long: bool, n: nat, done: Seq<u32>)
    requires
        done.len() <= n,
        forall|i: int| 0 <= i < done.len() ==> done[i] == entry(s, long, i),
    ensures
        entries(s, long, n, done) matches Ok(offsets) ==> offsets.len() == n && forall|i: int|
            0 <= i < n ==> offsets[i] == entry(s, long, i),
    decreases n - done.len(),
{
    let i = done.len() as int;
    if i < n && s.len() >= width(long) * (i + 1) && !(i > 0 && entry(s, long, i) < done[i - 1]) {
        lemma_entries_are_entries(s, long, n, done.push(entry(s, long, i)));
    }
}

/// Decodes a `loca` table from the bytes that `reader` delivers next. It
/// needs `head` and `maxp` among the tables decoded before it.
#[verifier::loop_isolation(false)]
pub fn parse_table<R: CoreRead>(prev_tables: &[Table], reader: &mut R) -> (r: Result<Type, Error>)
    requires
        old(reader).wf(),
    ensures
        match r {
            Ok(table) => decode(crate::tables::views(prev_tables@), pending(old(reader))) == Ok::<Seq<u32>, Error>(table@)
                && table.wf() && final(reader).pos() == old(reader).pos() + width(
                head_of(crate::tables::views(prev_tables@)).unwrap().long_offset,
            ) * table@.len(),
            Err(e) => decode(crate::tables::views(prev_tables@), pending(old(reader))) == Err::<Seq<u32>, Error>(e),
        },
        moved(old(reader), final(reader)),
{
    let ghost origin = *reader;
    proof {
        lemma_follows_start(&origin);
    }
    let head = match first_head(prev_tables) {
        Some(head) => head,
        None => {
            return Err(Error::MissingTable { missing: "head", parsing: "loca" });
        },
    };
    let maxp = match first_maxp(prev_tables) {
        Some(maxp) => maxp,
        None => {
            return Err(Error::MissingTable { missing: "maxp", parsing: "loca" });
        },
    };
    let long: bool = head.long_offset;
    let num_glyphs: usize = maxp.num_glyphs() as usize + 1;
    let mut offsets: Vec<u32> = Vec::with_capacity(num_glyphs);
    let mut prev: u32 = 0;
    let ghost s = pending(&origin);
    while offsets.len() < num_glyphs
        invariant
            s == pending(&origin),
            offsets@.len() <= num_glyphs <= 0x1_0000,
            follows(&origin, reader, width(long) * offsets@.len()),
            non_decreasing(offsets@),
            offsets@.len() > 0 ==> prev == offsets@[offsets@.len() - 1],
            entries(s, long, num_glyphs as nat, Seq::empty()) == entries(
                s,
                long,
                num_glyphs as nat,
                offsets@,
            ),
        decreases num_glyphs - offsets@.len(),
    {
        let ghost i = offsets@.len() as int;
        let offset: u32 = if long {
            take_u32(reader, Ghost(&origin), Ghost(4 * i))?
        } else {
            let half: u16 = take_u16(reader, Ghost(&origin), Ghost(2 * i))?;
            half as u32 * 2
        };
        if offsets.len() > 0 && offset < prev {
            return Err(
                Error::Parsing {
                    variable: "loca",
                    expected: ValidType::U32(prev.saturating_add(1)),
                    parsed: ValidType::U32(offset),
                },
            );
        }
        let ghost before = offsets@;
        offsets.push(offset);
        prev = offset;
        proof {
            assert forall|a: int, b: int| 0 <= a <= b < offsets@.len() implies offsets@[a]
                <= offsets@[b] by {
                if b == i && a < i {
                    assert(before[a] <= before[i - 1]);
                }
            }
        }
    }
    Ok(Type { offsets })
}

} // verus!

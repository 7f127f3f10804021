//! Reading a font: the header of the file, the directory of its tables, the
//! tables in the order in which the file holds them, and the checksum of
//! the whole.

use vstd::prelude::*;

use crate::tables::glyf::{Glyph, GlyphView};
use crate::tables::name::{RecordType, RecordView};
use crate::tables::{
    glyf_of, head_of, lemma_loca_found, lemma_maxp_stays, maxp_of, name_of, needs_met, Table,
    TableView,
};
use crate::types::slotmap::{ArenaView, Key, Slotmap, CAPACITY};
use crate::types::cursor::{
    follows, four_at, lemma_follows_on, lemma_follows_start, moved, pending, short, take_four,
    take_skip, take_u16, take_u32,
};
use crate::types::io::{be_u16, be_u32, checksum, ChecksumReader, CoreRead, CoreReadError};
use crate::types::{Error, ValidType};

verus! {

/// A font: its tables, in the order in which they were decoded.
pub type Font = Vec<Table>;

/// The largest `k` with `2^k <= n`, and zero for `n` zero.
pub open spec fn log2_floor(n: nat) -> nat
    decreases n,
{
    if n <= 1 {
        0
    } else {
        1 + log2_floor(n / 2)
    }
}

/// Two to the power of `k`.
pub open spec fn pow2(k: nat) -> nat
    decreases k,
{
    if k == 0 {
        1
    } else {
        2 * pow2((k - 1) as nat)
    }
}

/// The `searchRange` of a file with `n` tables: sixteen times the largest
/// power of two that is no more than `n`.
pub open spec fn search_range(n: nat) -> nat {
    pow2(log2_floor(n)) * 16
}

/// The `entrySelector` of a file with `n` tables: the exponent of the
/// largest power of two that is no more than `n`.
pub open spec fn entry_selector(n: nat) -> nat {
    log2_floor(n)
}

/// The `rangeShift` of a file with `n` tables: what sixteen times `n`
/// leaves over `searchRange`.
pub open spec fn range_shift(n: nat) -> int {
    n * 16 - search_range(n)
}

/// The version tag of a TrueType font.
pub open spec fn sfnt_version() -> [u8; 4] {
    [0x00u8, 0x01u8, 0x00u8, 0x00u8]
}

/// How `searchRange` is reported where it is not what was read: as 16 bits
/// where it fits them.
pub open spec fn reported(v: nat) -> ValidType {
    if v <= u16::MAX {
        ValidType::U16(v as u16)
    } else {
        ValidType::U32(v as u32)
    }
}

/// What the bytes `s` hold as the header of a font file: the number of
/// tables. The version tag must be that of TrueType, there must be one
/// table at least, and the three fields that follow must be what the number
/// of tables makes them.
pub open spec fn header(s: Seq<u8>) -> Result<u16, Error> {
    let n = be_u16(s, 4);
    if four_at(s, 0) != sfnt_version() {
        Err(Error::InvalidSfntVersion(four_at(s, 0)))
    } else if s.len() < 4 {
        Err(short(s, (s.len() + 2) as int))
    } else if s.len() < 6 {
        Err(short(s, 6))
    } else if n == 0 {
        Err(
            Error::Parsing {
                variable: "NumTables",
                expected: ValidType::U16(1),
                parsed: ValidType::U16(0),
            },
        )
    } else if s.len() < 8 {
        Err(short(s, 8))
    } else if be_u16(s, 6) != search_range(n as nat) {
        Err(
            Error::Parsing {
                variable: "SearchRange",
                expected: reported(search_range(n as nat)),
                parsed: ValidType::U16(be_u16(s, 6)),
            },
        )
    } else if s.len() < 10 {
        Err(short(s, 10))
    } else if be_u16(s, 8) != entry_selector(n as nat) {
        Err(
            Error::Parsing {
                variable: "EntrySelector",
                expected: ValidType::U32(entry_selector(n as nat) as u32),
                parsed: ValidType::U16(be_u16(s, 8)),
            },
        )
    } else if s.len() < 12 {
        Err(short(s, 12))
    } else if be_u16(s, 10) != range_shift(n as nat) {
        Err(
            Error::Parsing {
                variable: "RangeShift",
                expected: ValidType::U16(range_shift(n as nat) as u16),
                parsed: ValidType::U16(be_u16(s, 10)),
            },
        )
    } else {
        Ok(n)
    }
}

/// A number that lies between a power of two and the next has the exponent
/// of the first as its logarithm.
pub proof fn lemma_log2_floor(n: nat, k: nat)
    requires
        pow2(k) <= n < 2 * pow2(k),
    ensures
        log2_floor(n) == k,
    decreases k,
{
    if k > 0 {
        lemma_log2_floor(n / 2, (k - 1) as nat);
    }
}

/// The powers of two grow.
pub proof fn lemma_pow2_grows(a: nat, b: nat)
    requires
        a <= b,
    ensures
        0 < pow2(a) <= pow2(b),
    decreases b,
{
    if a < b {
        lemma_pow2_grows(a, (b - 1) as nat);
    } else if a > 0 {
        lemma_pow2_grows((a - 1) as nat, (a - 1) as nat);
    }
}

/// The exponent of the largest power of two that is no more than `n`, and
/// that power.
fn ilog2(n: u16) -> (r: (u32, u32))
    requires
        n > 0,
    ensures
        r.0 == log2_floor(n as nat),
        r.1 == pow2(log2_floor(n as nat)),
        r.0 < 16,
        r.1 <= n < 2 * r.1,
{
    let mut k: u32 = 0;
    let mut p: u32 = 1;
    while p * 2 <= n as u32
        invariant
            p == pow2(k as nat),
            p <= n,
            k < 16,
        decreases n - p,
    {
        p = p * 2;
        k = k + 1;
        proof {
            if k >= 16 {
                lemma_pow2_grows(16, k as nat);
                assert(pow2(16) == 65536) by {
                    reveal_with_fuel(pow2, 17);
                }
            }
        }
    }
    proof {
        lemma_log2_floor(n as nat, k as nat);
    }
    (k, p)
}

/// Reads the header of a font file and gives the number of its tables.
pub fn verify_header<R: CoreRead>(input: &mut R) -> (r: Result<u16, Error>)
    requires
        old(input).wf(),
    ensures
        r == header(pending(old(input))),
        moved(old(input), final(input)),
        r is Ok ==> final(input).pos() == old(input).pos() + 12,
{
    let ghost origin = *input;
    proof {
        lemma_follows_start(&origin);
    }
    let (version, read) = take_four(input, Ghost(&origin), Ghost(0));
    if version[0] != 0x00 || version[1] != 0x01 || version[2] != 0x00 || version[3] != 0x00 {
        assert(version@ != sfnt_version()@);
        return Err(Error::InvalidSfntVersion(version));
    }
    assert(version =~= sfnt_version());
    let num_tables: u16 = take_u16(input, Ghost(&origin), Ghost(read as int))?;
    if num_tables == 0 {
        return Err(
            Error::Parsing {
                variable: "NumTables",
                expected: ValidType::U16(1),
                parsed: ValidType::U16(0),
            },
        );
    }
    let (exponent, power) = ilog2(num_tables);
    let search_range: u16 = take_u16(input, Ghost(&origin), Ghost(6))?;
    if search_range as u32 != power * 16 {
        return Err(
            Error::Parsing {
                variable: "SearchRange",
                expected: if power * 16 <= 0xffff {
                    ValidType::U16((power * 16) as u16)
                } else {
                    ValidType::U32(power * 16)
                },
                parsed: ValidType::U16(search_range),
            },
        );
    }
    let entry_selector: u16 = take_u16(input, Ghost(&origin), Ghost(8))?;
    if entry_selector as u32 != exponent {
        return Err(
            Error::Parsing {
                variable: "EntrySelector",
                expected: ValidType::U32(exponent),
                parsed: ValidType::U16(entry_selector),
            },
        );
    }
    let range_shift: u16 = take_u16(input, Ghost(&origin), Ghost(10))?;
    let shift: u32 = num_tables as u32 * 16 - search_range as u32;
    if range_shift as u32 != shift {
        return Err(
            Error::Parsing {
                variable: "RangeShift",
                expected: ValidType::U16(shift as u16),
                parsed: ValidType::U16(range_shift),
            },
        );
    }
    Ok(num_tables)
}

/// The largest power of two that is no more than `n` is more than half of
/// `n`.
pub proof fn lemma_log2_bounds(n: nat)
    requires
        n >= 1,
    ensures
        pow2(log2_floor(n)) <= n < 2 * pow2(log2_floor(n)),
    decreases n,
{
    if n > 1 {
        lemma_log2_bounds(n / 2);
    }
}

/// The upper byte and the lower byte of a 16-bit number.
pub open spec fn be_bytes(v: nat) -> Seq<u8> {
    seq![(v / 0x100) as u8, (v % 0x100) as u8]
}

/// The header of a font file with `n` tables.
pub open spec fn header_for(n: u16) -> Seq<u8> {
    sfnt_version()@ + be_bytes(n as nat) + be_bytes(search_range(n as nat)) + be_bytes(
        entry_selector(n as nat),
    ) + be_bytes(range_shift(n as nat) as nat)
}

/// The header that the number of tables makes up is accepted, whatever
/// follows it, and gives that number back. This holds from one table up to
/// 4095; from 4096 on `searchRange` does not fit its field.
pub proof fn lemma_header_round_trip(n: u16, tail: Seq<u8>)
    requires
        1 <= n < 4096,
    ensures
        header(header_for(n) + tail) == Ok::<u16, Error>(n),
{
    lemma_log2_bounds(n as nat);
    let k = log2_floor(n as nat);
    if k >= 12 {
        lemma_pow2_grows(12, k);
        assert(pow2(12) == 4096) by {
            reveal_with_fuel(pow2, 13);
        }
    }
    let s = header_for(n) + tail;
    assert(four_at(s, 0) =~= sfnt_version());
    assert(s[4] == (n / 0x100) as u8 && s[5] == (n % 0x100) as u8);
    assert(s[6] == (search_range(n as nat) / 0x100) as u8);
    assert(s[7] == (search_range(n as nat) % 0x100) as u8);
    assert(s[8] == (entry_selector(n as nat) / 0x100) as u8);
    assert(s[9] == (entry_selector(n as nat) % 0x100) as u8);
    assert(s[10] == (range_shift(n as nat) / 0x100) as u8);
    assert(s[11] == (range_shift(n as nat) % 0x100) as u8);
}

/// A header whose `searchRange`, `entrySelector` or `rangeShift` is not what
/// the number of tables makes it is refused, and the error names a field.
pub proof fn lemma_inconsistent_header_fails(s: Seq<u8>)
    requires
        s.len() >= 12,
        four_at(s, 0) == sfnt_version(),
        be_u16(s, 6) != search_range(be_u16(s, 4) as nat) || be_u16(s, 8) != entry_selector(
            be_u16(s, 4) as nat,
        ) || be_u16(s, 10) != range_shift(be_u16(s, 4) as nat),
    ensures
        header(s) is Err,
        header(s)->Err_0 is Parsing,
{
}

/// An entry of the directory of tables.
#[derive(Debug, Clone, Copy, PartialEq, Eq)]
pub struct TableRecord {
    /// The four characters that name the table.
    pub tag: [u8; 4],
    /// The checksum that the file declares for the table.
    pub checksum: u32,
    /// Where in the file the table starts.
    pub offset: u32,
    /// How many bytes the table takes.
    pub length: u32,
}

/// Entry `i` of the directory of a file `s`.
pub open spec fn record_at(s: Seq<u8>, i: int) -> TableRecord {
    TableRecord {
        tag: four_at(s, 12 + 16 * i),
        checksum: be_u32(s, 16 + 16 * i),
        offset: be_u32(s, 20 + 16 * i),
        length: be_u32(s, 24 + 16 * i),
    }
}

/// The error of an entry of the directory that the bytes `s` that were
/// left do not hold whole: it tells how many bytes were missing of the
/// first field, of four bytes as they all are, that was cut short.
pub open spec fn record_cut(s: Seq<u8>) -> Error {
    Error::UnexpectedEop {
        location: "TableRecord",
        needed: (12 + 4 * ((s.len() - 12) / 4 + 1) - s.len()) as usize,
    }
}

/// The directory of a file `s` with `n` tables, which follows the header.
/// A file that ends within the directory is an error.
pub open spec fn directory(s: Seq<u8>, n: nat) -> Result<Seq<TableRecord>, Error> {
    if s.len() >= 12 + 16 * n {
        Ok(Seq::new(n, |i: int| record_at(s, i)))
    } else {
        Err(record_cut(s))
    }
}

/// `sorted` with `record` put behind the last entry that starts no later.
pub open spec fn insert(sorted: Seq<TableRecord>, record: TableRecord) -> Seq<TableRecord>
    decreases sorted.len(),
{
    if sorted.len() == 0 || sorted.last().offset <= record.offset {
        sorted.push(record)
    } else {
        insert(sorted.drop_last(), record).push(sorted.last())
    }
}

/// The entries in the order in which the tables lie in the file: by where
/// they start, and those that start at the same place in the order of the
/// directory.
pub open spec fn by_offset(records: Seq<TableRecord>) -> Seq<TableRecord>
    decreases records.len(),
{
    if records.len() == 0 {
        records
    } else {
        insert(by_offset(records.drop_last()), records.last())
    }
}

/// No entry of `records` starts before the one in front of it.
pub open spec fn in_file_order(records: Seq<TableRecord>) -> bool {
    forall|i: int, j: int| 0 <= i <= j < records.len() ==> records[i].offset <= records[j].offset
}

/// Putting an entry at index `j` is what `insert` does, where all entries
/// from `j` on start later than it and the one before `j` does not.
proof fn lemma_insert_at(sorted: Seq<TableRecord>, record: TableRecord, j: int)
    requires
        0 <= j <= sorted.len(),
        forall|t: int| j <= t < sorted.len() ==> sorted[t].offset > record.offset,
        j > 0 ==> sorted[j - 1].offset <= record.offset,
    ensures
        insert(sorted, record) == sorted.insert(j, record),
    decreases sorted.len() - j,
{
    if j == sorted.len() {
        assert(sorted.insert(j, record) =~= sorted.push(record));
    } else {
        lemma_insert_at(sorted.drop_last(), record, j);
        assert(sorted.drop_last().insert(j, record).push(sorted.last()) =~= sorted.insert(
            j,
            record,
        ));
    }
}

/// An entry put into entries in file order leaves them in file order, with
/// one entry more.
pub proof fn lemma_insert_keeps_order(sorted: Seq<TableRecord>, record: TableRecord)
    requires
        in_file_order(sorted),
    ensures
        in_file_order(insert(sorted, record)),
        insert(sorted, record).len() == sorted.len() + 1,
        insert(sorted, record).to_multiset() == sorted.to_multiset().insert(record),
    decreases sorted.len(),
{
    broadcast use vstd::seq_lib::group_to_multiset_ensures;

    if sorted.len() == 0 || sorted.last().offset <= record.offset {
        let out = sorted.push(record);
        assert forall|i: int, j: int| 0 <= i <= j < out.len() implies out[i].offset
            <= out[j].offset by {
            if j == sorted.len() && i < j {
                assert(sorted[i].offset <= sorted.last().offset);
            }
        }
    } else {
        let front = sorted.drop_last();
        lemma_insert_keeps_order(front, record);
        let mid = insert(front, record);
        let out = mid.push(sorted.last());
        assert(sorted =~= front.push(sorted.last()));
        assert forall|i: int, j: int| 0 <= i <= j < out.len() implies out[i].offset
            <= out[j].offset by {
            if j == mid.len() && i < j {
                assert(mid.to_multiset().count(mid[i]) > 0);
                if mid[i] != record {
                    assert(front.to_multiset().count(mid[i]) > 0);
                    let w = choose|w: int| 0 <= w < front.len() && front[w] == mid[i];
                    assert(sorted[w].offset <= sorted.last().offset);
                }
            }
        }
        assert(out.to_multiset() =~= sorted.to_multiset().insert(record));
    }
}

/// The entries in file order are the entries of the directory, each as
/// often as there, and none starts before the one in front of it.
pub proof fn lemma_by_offset_sorts(records: Seq<TableRecord>)
    ensures
        in_file_order(by_offset(records)),
        by_offset(records).len() == records.len(),
        by_offset(records).to_multiset() == records.to_multiset(),
    decreases records.len(),
{
    broadcast use vstd::seq_lib::group_to_multiset_ensures;

    if records.len() > 0 {
        lemma_by_offset_sorts(records.drop_last());
        lemma_insert_keeps_order(by_offset(records.drop_last()), records.last());
        assert(records =~= records.drop_last().push(records.last()));
    }
}

/// Reads one number of an entry of the directory.
fn take_record_u32<R: CoreRead>(reader: &mut R, Ghost(origin): Ghost<&R>, Ghost(k): Ghost<int>) -> (r:
    Result<u32, Error>)
    requires
        follows(origin, old(reader), k),
        k >= 12,
        k % 4 == 0,
    ensures
        k + 4 <= pending(origin).len() ==> r == Ok::<u32, Error>(be_u32(pending(origin), k))
            && follows(origin, final(reader), k + 4),
        k + 4 > pending(origin).len() ==> r == Err::<u32, Error>(record_cut(pending(origin))),
        moved(origin, final(reader)),
{
    match take_u32(reader, Ghost(origin), Ghost(k)) {
        Ok(v) => Ok(v),
        Err(Error::Io(CoreReadError::UnexpectedEnd(needed))) => Err(
            Error::UnexpectedEop { location: "TableRecord", needed },
        ),
        Err(e) => Err(e),
    }
}

/// Reads the directory of a file with `num_tables` tables.
#[verifier::loop_isolation(false)]
fn read_directory<R: CoreRead>(reader: &mut R, num_tables: u16, Ghost(origin): Ghost<&R>) -> (r:
    Result<Vec<TableRecord>, Error>)
    requires
        follows(origin, old(reader), 12),
    ensures
        match r {
            Ok(records) => directory(pending(origin), num_tables as nat) == Ok::<
                Seq<TableRecord>,
                Error,
            >(records@) && follows(origin, final(reader), 12 + 16 * num_tables),
            Err(e) => directory(pending(origin), num_tables as nat) == Err::<
                Seq<TableRecord>,
                Error,
            >(e),
        },
        moved(origin, final(reader)),
{
    let ghost s = pending(origin);
    let mut records: Vec<TableRecord> = Vec::with_capacity(num_tables as usize);
    while records.len() < num_tables as usize
        invariant
            records@.len() <= num_tables,
            follows(origin, reader, (12 + 16 * records@.len()) as int),
            records@ == Seq::new(records@.len(), |i: int| record_at(s, i)),
        decreases num_tables - records@.len(),
    {
        let ghost i = records@.len() as int;
        let (tag, read) = take_four(reader, Ghost(origin), Ghost(12 + 16 * i));
        if read != 4 {
            return Err(Error::UnexpectedEop { location: "TableRecord", needed: 4 - read });
        }
        let checksum: u32 = take_record_u32(reader, Ghost(origin), Ghost(16 + 16 * i))?;
        let offset: u32 = take_record_u32(reader, Ghost(origin), Ghost(20 + 16 * i))?;
        let length: u32 = take_record_u32(reader, Ghost(origin), Ghost(24 + 16 * i))?;
        records.push(TableRecord { tag, checksum, offset, length });
        assert(records@ =~= Seq::new(records@.len(), |i: int| record_at(s, i)));
    }
    Ok(records)
}

/// Puts `record` behind the last entry of `sorted` that starts no later.
#[verifier::loop_isolation(false)]
fn insert_record(sorted: &mut Vec<TableRecord>, record: TableRecord)
    ensures
        final(sorted)@ == insert(old(sorted)@, record),
{
    let mut j: usize = sorted.len();
    while j > 0 && sorted[j - 1].offset > record.offset
        invariant
            j <= sorted@.len(),
            sorted@ == old(sorted)@,
            forall|t: int| j <= t < sorted@.len() ==> sorted@[t].offset > record.offset,
        decreases j,
    {
        j = j - 1;
    }
    proof {
        lemma_insert_at(sorted@, record, j as int);
    }
    sorted.insert(j, record);
}

/// Puts the entries of the directory in the order in which the tables lie
/// in the file.
#[verifier::loop_isolation(false)]
fn sort_by_offset(records: &Vec<TableRecord>) -> (sorted: Vec<TableRecord>)
    ensures
        sorted@ == by_offset(records@),
{
    let mut sorted: Vec<TableRecord> = Vec::with_capacity(records.len());
    let mut i: usize = 0;
    assert(records@.take(0) =~= Seq::empty());
    while i < records.len()
        invariant
            i <= records@.len(),
            sorted@ == by_offset(records@.take(i as int)),
        decreases records@.len() - i,
    {
        insert_record(&mut sorted, records[i]);
        i = i + 1;
        proof {
            assert(records@.take(i as int).drop_last() =~= records@.take(i - 1));
        }
    }
    assert(records@.take(i as int) =~= records@);
    sorted
}

/// The constant that the checksum of a whole file and the adjustment held
/// in `head` add up to.
pub const CHECKSUM_MAGIC: u32 = 0xb1b0_afba;

/// Where the table of the entry `record` starts, when reading has come to
/// offset `k` of the file: at its declared offset, or at `k` where that is
/// already behind.
pub open spec fn table_start(k: int, record: TableRecord) -> int {
    if record.offset > k {
        record.offset as int
    } else {
        k
    }
}

/// The bytes of the table of the entry `record`: as many as it declares
/// from where it starts, or as many as the file still holds.
pub open spec fn table_bytes(s: Seq<u8>, k: int, record: TableRecord) -> Seq<u8> {
    s.subrange(
        table_start(k, record),
        vstd::math::min(s.len() as int, table_start(k, record) + record.length),
    )
}

/// The table of the entry `record` in the file `s`, when reading has come
/// to offset `k` and `done` are the tables decoded so far; `None` where no
/// decoder is known for its tag. A file that ends before the table does is
/// an error, whatever the table holds.
pub open spec fn table_at(s: Seq<u8>, k: int, record: TableRecord, done: Seq<TableView>) -> Result<
    Option<TableView>,
    Error,
> {
    if s.len() < table_start(k, record) {
        Err(short(s, table_start(k, record)))
    } else if s.len() < table_start(k, record) + record.length {
        Err(short(s, table_start(k, record) + record.length))
    } else {
        match crate::tables::decode(done, record.tag, table_bytes(s, k, record)) {
            Ok(table) => Ok(Some(table)),
            Err(e) => if e is InvalidTag {
                Ok(None)
            } else {
                Err(e)
            },
        }
    }
}

/// The adjustment after a table: that of the table where it is `head`.
pub open spec fn adjustment_after(table: Option<TableView>, adjustment: u32) -> u32 {
    match table {
        Some(TableView::Head(head)) => head.checksum_adjustment,
        _ => adjustment,
    }
}

/// The tables after a table: with it at their end, if there is one.
pub open spec fn tables_after(table: Option<TableView>, done: Seq<TableView>) -> Seq<TableView> {
    match table {
        Some(t) => done.push(t),
        None => done,
    }
}

/// The tables of the entries from number `i` on, in the order given, added
/// to `done`; with them the adjustment of the last `head` table among them,
/// or `adjustment` if there is none, and the offset at which the last table
/// ends.
pub open spec fn tables_from(
    s: Seq<u8>,
    order: Seq<TableRecord>,
    i: int,
    k: int,
    done: Seq<TableView>,
    adjustment: u32,
) -> Result<(Seq<TableView>, u32, int), Error>
    decreases order.len() - i,
{
    if i < 0 || i >= order.len() {
        Ok((done, adjustment, k))
    } else {
        match table_at(s, k, order[i], done) {
            Err(e) => Err(e),
            Ok(table) => tables_from(
                s,
                order,
                i + 1,
                table_start(k, order[i]) + order[i].length,
                tables_after(table, done),
                adjustment_after(table, adjustment),
            ),
        }
    }
}

/// Whether the checksum that the entry `record` declares for its table is
/// that of the table's bytes. For `head` the adjustment that it holds does
/// not count.
pub open spec fn table_fits(s: Seq<u8>, k: int, record: TableRecord, table: Option<TableView>)
    -> bool {
    let sum = checksum(table_bytes(s, k, record));
    record.checksum == match table {
        Some(TableView::Head(head)) => sum.wrapping_sub(head.checksum_adjustment),
        _ => sum,
    }
}

/// The entries from number `i` on, in the order given, whose table does
/// not have the checksum that they declare, added to `found`. Such a table
/// is taken into the font all the same.
pub open spec fn misfits_from(
    s: Seq<u8>,
    order: Seq<TableRecord>,
    i: int,
    k: int,
    done: Seq<TableView>,
    found: Seq<TableRecord>,
) -> Seq<TableRecord>
    decreases order.len() - i,
{
    if i < 0 || i >= order.len() {
        found
    } else {
        match table_at(s, k, order[i], done) {
            Err(_) => found,
            Ok(table) => misfits_from(
                s,
                order,
                i + 1,
                table_start(k, order[i]) + order[i].length,
                tables_after(table, done),
                if table_fits(s, k, order[i], table) {
                    found
                } else {
                    found.push(order[i])
                },
            ),
        }
    }
}

/// The entries of the directory of the file `s`, in the order in which
/// their tables lie in it, whose table does not have the checksum that they
/// declare.
pub open spec fn misfits(s: Seq<u8>) -> Seq<TableRecord> {
    match header(s) {
        Err(_) => Seq::empty(),
        Ok(n) => match directory(s, n as nat) {
            Err(_) => Seq::empty(),
            Ok(records) => misfits_from(
                s,
                by_offset(records),
                0,
                12 + 16 * n,
                Seq::empty(),
                Seq::empty(),
            ),
        },
    }
}

/// What the tables and the bytes read make the adjustment: the constant
/// less the checksum of the bytes, in which the adjustment of the first
/// `head` table does not count.
pub open spec fn adjustment_of(read: Seq<u8>, tables: Seq<TableView>) -> u32 {
    let sum = match head_of(tables) {
        Some(head) => checksum(read).wrapping_sub(head.checksum_adjustment),
        None => checksum(read),
    };
    CHECKSUM_MAGIC.wrapping_sub(sum)
}

/// What the bytes `s` hold as a font file: the tables that a decoder is
/// known for, in the order in which they lie in the file. The adjustment
/// that `head` declares must be what the bytes up to the end of the last
/// table make it.
pub open spec fn font_of(s: Seq<u8>) -> Result<Seq<TableView>, Error> {
    match header(s) {
        Err(e) => Err(e),
        Ok(n) => match directory(s, n as nat) {
            Err(e) => Err(e),
            Ok(records) => match tables_from(
                s,
                by_offset(records),
                0,
                12 + 16 * n,
                Seq::empty(),
                0,
            ) {
                Err(e) => Err(e),
                Ok((tables, adjustment, end)) => if adjustment_of(s.take(end), tables)
                    != adjustment {
                    Err(
                        Error::Parsing {
                            variable: "ChecksumAdjustment",
                            expected: ValidType::U32(adjustment),
                            parsed: ValidType::U32(adjustment_of(s.take(end), tables)),
                        },
                    )
                } else {
                    Ok(tables)
                },
            },
        },
    }
}

/// Each table of `tables` comes after those that it needs: `glyf` after
/// `loca` and `maxp`, `loca` after `head` and `maxp`, `hmtx` after `maxp`
/// and `hhea`.
pub open spec fn in_order_of_need(tables: Seq<TableView>) -> bool {
    forall|i: int|
        0 <= i < tables.len() ==> needs_met(tables.take(i), #[trigger] tables[i]) && (tables[i] is Glyf
            ==> maxp_of(tables.take(i)) is Some)
}

/// Tables that come each after those that it needs do so still with one
/// more at their end whose needs they meet.
proof fn lemma_order_grows(done: Seq<TableView>, table: TableView)
    requires
        in_order_of_need(done),
        needs_met(done, table),
    ensures
        in_order_of_need(done.push(table)),
{
    let all = done.push(table);
    assert forall|i: int| 0 <= i < all.len() implies needs_met(all.take(i), #[trigger] all[i]) && (
    all[i] is Glyf ==> maxp_of(all.take(i)) is Some) by {
        if i < done.len() {
            assert(all.take(i) =~= done.take(i));
        } else {
            assert(all.take(i) =~= done);
            if table is Glyf {
                let at = lemma_loca_found(done);
                assert(needs_met(done.take(at), done[at]));
                lemma_maxp_stays(done, at);
            }
        }
    }
}

/// The tables that are read each come after those that they need.
pub proof fn lemma_tables_in_order(
    s: Seq<u8>,
    order: Seq<TableRecord>,
    i: int,
    k: int,
    done: Seq<TableView>,
    adjustment: u32,
)
    requires
        in_order_of_need(done),
    ensures
        tables_from(s, order, i, k, done, adjustment) matches Ok((tables, _, _))
            ==> in_order_of_need(tables),
    decreases order.len() - i,
{
    if 0 <= i < order.len() {
        if let Ok(table) = table_at(s, k, order[i], done) {
            if let Some(t) = table {
                crate::tables::lemma_decode_needs(done, order[i].tag, table_bytes(s, k, order[i]));
                lemma_order_grows(done, t);
            }
            lemma_tables_in_order(
                s,
                order,
                i + 1,
                table_start(k, order[i]) + order[i].length,
                tables_after(table, done),
                adjustment_after(table, adjustment),
            );
        }
    }
}

/// In a font that was read, each table comes after those that it needs:
/// `glyf` after `loca` and `maxp`, `loca` after `head` and `maxp`, `hmtx`
/// after `maxp` and `hhea`.
pub proof fn lemma_font_in_order(s: Seq<u8>)
    ensures
        font_of(s) matches Ok(tables) ==> in_order_of_need(tables),
{
    if let Ok(n) = header(s) {
        if let Ok(records) = directory(s, n as nat) {
            lemma_tables_in_order(s, by_offset(records), 0, 12 + 16 * n, Seq::empty(), 0);
        }
    }
}

/// The table that `table` points at, as plain values.
pub open spec fn view_of(table: Option<Table>) -> Option<TableView> {
    match table {
        Some(t) => Some(t@),
        None => None,
    }
}

/// Reads the table of one entry of the directory: moves on to where it
/// starts, decodes it from no more bytes than it declares, and leaves the
/// reader at its end.
fn read_table<R: CoreRead>(
    reader: ChecksumReader<R>,
    prev_tables: &Vec<Table>,
    record: &TableRecord,
    Ghost(origin): Ghost<&ChecksumReader<R>>,
    Ghost(k): Ghost<int>,
) -> (r: (ChecksumReader<R>, Result<(Option<Table>, bool), Error>))
    requires
        follows(origin, &reader, k),
        origin.pos() == 0,
    ensures
        match r.1 {
            Ok((table, fits)) => table_at(
                pending(origin),
                k,
                *record,
                crate::tables::views(prev_tables@),
            ) == Ok::<Option<TableView>, Error>(view_of(table)) && follows(
                origin,
                &r.0,
                table_start(k, *record) + record.length,
            ) && fits == table_fits(pending(origin), k, *record, view_of(table)),
            Err(e) => table_at(pending(origin), k, *record, crate::tables::views(prev_tables@))
                == Err::<Option<TableView>, Error>(e),
        },
{
    let ghost s = pending(origin);
    let mut reader = reader;
    let here: usize = reader.total_read();
    if record.offset as usize > here {
        match take_skip(&mut reader, record.offset as usize - here, Ghost(origin), Ghost(k)) {
            Ok(_) => {},
            Err(e) => {
                return (reader, Err(e));
            },
        }
    }
    let ghost start = table_start(k, *record);
    let ghost outer = reader;
    proof {
        outer.lemma_here();
        origin.lemma_here();
    }
    let mut tag_reader = ChecksumReader::scoped(reader, record.length as usize);
    let ghost scope = tag_reader;
    proof {
        lemma_follows_start(&scope);
        assert(pending(&scope) =~= table_bytes(s, k, *record));
    }
    let parsed = crate::tables::parse_table(prev_tables.as_slice(), record.tag, &mut tag_reader);
    let ghost decoded = tag_reader.pos() as int;
    let rest: usize = record.length as usize - tag_reader.total_read();
    let skipped = take_skip(&mut tag_reader, rest, Ghost(&scope), Ghost(decoded));
    let ghost end = tag_reader.pos();
    proof {
        scope.lemma_inner(end);
        tag_reader.lemma_inner(0);
    }
    proof {
        scope.lemma_here();
        tag_reader.lemma_here();
        if skipped is Ok {
            assert(crate::types::io::consumed(&tag_reader) =~= table_bytes(s, k, *record));
        }
    }
    let (sum, reader) = tag_reader.finish();
    proof {
        lemma_follows_on(origin, &outer, &reader, start, end as int);
    }
    match skipped {
        Ok(_) => {},
        Err(e) => {
            return (reader, Err(e));
        },
    }
    match parsed {
        Ok(Table::Head(head)) => {
            let fits: bool = sum.wrapping_sub(head.checksum_adjustment) == record.checksum;
            (reader, Ok((Some(Table::Head(head)), fits)))
        },
        Ok(table) => (reader, Ok((Some(table), sum == record.checksum))),
        Err(Error::InvalidTag(_)) => (reader, Ok((None, sum == record.checksum))),
        Err(e) => (reader, Err(e)),
    }
}

/// Reads the tables of the entries in `order`, one after another.
#[verifier::loop_isolation(false)]
fn read_tables<R: CoreRead>(
    reader: ChecksumReader<R>,
    order: &Vec<TableRecord>,
    Ghost(origin): Ghost<&ChecksumReader<R>>,
    Ghost(k): Ghost<int>,
) -> (r: (ChecksumReader<R>, Result<(Vec<Table>, u32, Vec<TableRecord>), Error>))
    requires
        follows(origin, &reader, k),
        origin.pos() == 0,
    ensures
        match r.1 {
            Ok((tables, adjustment, odd)) => tables_from(
                pending(origin),
                order@,
                0,
                k,
                Seq::empty(),
                0,
            ) matches Ok((t, a, end)) && t == crate::tables::views(tables@) && a == adjustment
                && follows(origin, &r.0, end) && odd@ == misfits_from(
                pending(origin),
                order@,
                0,
                k,
                Seq::empty(),
                Seq::empty(),
            ),
            Err(e) => tables_from(pending(origin), order@, 0, k, Seq::empty(), 0) == Err::<
                (Seq<TableView>, u32, int),
                Error,
            >(e),
        },
{
    let ghost s = pending(origin);
    let mut reader = reader;
    let mut parsed_tables: Vec<Table> = Vec::new();
    let mut checksum_adj: u32 = 0;
    let mut odd: Vec<TableRecord> = Vec::new();
    let mut i: usize = 0;
    let ghost mut at: int = k;
    assert(crate::tables::views(parsed_tables@) =~= Seq::empty());
    while i < order.len()
        invariant
            i <= order@.len(),
            follows(origin, &reader, at),
            tables_from(s, order@, 0, k, Seq::empty(), 0) == tables_from(
                s,
                order@,
                i as int,
                at,
                crate::tables::views(parsed_tables@),
                checksum_adj,
            ),
            misfits_from(s, order@, 0, k, Seq::empty(), Seq::empty()) == misfits_from(
                s,
                order@,
                i as int,
                at,
                crate::tables::views(parsed_tables@),
                odd@,
            ),
        decreases order@.len() - i,
    {
        let ghost before = crate::tables::views(parsed_tables@);
        let (next, outcome) = read_table(
            reader,
            &parsed_tables,
            &order[i],
            Ghost(origin),
            Ghost(at),
        );
        reader = next;
        let fits: bool = match outcome {
            Err(e) => {
                return (reader, Err(e));
            },
            Ok((Some(Table::Head(head)), fits)) => {
                checksum_adj = head.checksum_adjustment;
                parsed_tables.push(Table::Head(head));
                assert(crate::tables::views(parsed_tables@) =~= before.push(TableView::Head(head)));
                fits
            },
            Ok((Some(table), fits)) => {
                let ghost shape = table@;
                parsed_tables.push(table);
                assert(crate::tables::views(parsed_tables@) =~= before.push(shape));
                fits
            },
            Ok((None, fits)) => fits,
        };
        if !fits {
            odd.push(order[i]);
        }
        proof {
            at = table_start(at, order@[i as int]) + order@[i as int].length;
        }
        i = i + 1;
    }
    (reader, Ok((parsed_tables, checksum_adj, odd)))
}

/// Reads a font from `input`: the header, the directory, and then each
/// table in the order in which they lie in the file, as `input` is read
/// from front to back and never again. A table with a tag that no decoder
/// is known for is passed over. At the end the checksum of all that was
/// read must fit the adjustment that `head` declares. A table whose own
/// checksum is not the one that the directory declares is taken all the
/// same; with the font come the entries of such tables.
pub fn open_font_noting<R: CoreRead>(input: R) -> (r: Result<(Font, Vec<TableRecord>), Error>)
    requires
        input.wf(),
    ensures
        match r {
            Ok((font, odd)) => font_of(pending(&input)) == Ok::<Seq<TableView>, Error>(
                crate::tables::views(font@),
            ) && odd@ == misfits(pending(&input)) && in_order_of_need(
                crate::tables::views(font@),
            ),
            Err(e) => font_of(pending(&input)) == Err::<Seq<TableView>, Error>(e),
        },
{
    proof {
        lemma_font_in_order(pending(&input));
    }
    let mut reader = ChecksumReader::new(input);
    let ghost origin = reader;
    let ghost s = pending(&origin);
    proof {
        lemma_follows_start(&origin);
        assert(s =~= pending(&input));
    }
    let num_tables: u16 = verify_header(&mut reader)?;
    let records = read_directory(&mut reader, num_tables, Ghost(&origin))?;
    let order = sort_by_offset(&records);
    let (reader, outcome) = read_tables(
        reader,
        &order,
        Ghost(&origin),
        Ghost(12 + 16 * num_tables),
    );
    let (parsed_tables, checksum_adj, odd) = outcome?;
    let ghost end = reader.pos() as int;
    proof {
        origin.lemma_here();
        reader.lemma_here();
        assert(crate::types::io::consumed(&reader) =~= s.take(end));
    }
    let (mut sum, _) = reader.finish();
    if let Some(head) = crate::tables::first_head(parsed_tables.as_slice()) {
        sum = sum.wrapping_sub(head.checksum_adjustment);
    }
    let adjustment: u32 = CHECKSUM_MAGIC.wrapping_sub(sum);
    if adjustment != checksum_adj {
        return Err(
            Error::Parsing {
                variable: "ChecksumAdjustment",
                expected: ValidType::U32(checksum_adj),
                parsed: ValidType::U32(adjustment),
            },
        );
    }
    Ok((parsed_tables, odd))
}

/// Reads a font from `input`: the header, the directory, and then each
/// table in the order in which they lie in the file, as `input` is read
/// from front to back and never again. A table with a tag that no decoder
/// is known for is passed over. At the end the checksum of all that was
/// read must fit the adjustment that `head` declares; the checksums of the
/// tables themselves do not decide.
pub fn open_font<R: CoreRead>(input: R) -> (r: Result<Font, Error>)
    requires
        input.wf(),
    ensures
        match r {
            Ok(font) => font_of(pending(&input)) == Ok::<Seq<TableView>, Error>(
                crate::tables::views(font@),
            ),
            Err(e) => font_of(pending(&input)) == Err::<Seq<TableView>, Error>(e),
        },
        r matches Ok(font) ==> in_order_of_need(crate::tables::views(font@)),
{
    match open_font_noting(input) {
        Ok((font, _)) => Ok(font),
        Err(e) => Err(e),
    }
}

/// The text of the first of `records` that is of the type `record_type`.
pub open spec fn text_of(records: Seq<RecordView>, record_type: RecordType) -> Option<Seq<char>>
    decreases records.len(),
{
    if records.len() == 0 {
        None
    } else if records[0].name == record_type {
        Some(records[0].string)
    } else {
        text_of(records.skip(1), record_type)
    }
}

/// The name of the type `record_type` that the first `name` table among
/// `tables` holds.
pub open spec fn name_record_of(tables: Seq<TableView>, record_type: RecordType) -> Option<
    Seq<char>,
> {
    match name_of(tables) {
        Some(records) => text_of(records, record_type),
        None => None,
    }
}

/// The glyph with the index `glyph_id` that the first `glyf` table among
/// `tables` holds.
pub open spec fn glyph_of(tables: Seq<TableView>, glyph_id: u32) -> Option<GlyphView> {
    match glyf_of(tables) {
        Some(glyphs) => if glyph_id < glyphs.len() {
            Some(glyphs[glyph_id as int])
        } else {
            None
        },
        None => None,
    }
}

/// What a font offers to those who lay out and draw text.
pub trait Trait {
    /// The tables of the font as plain values.
    spec fn tables(&self) -> Seq<TableView>;

    /// The name of the font of the type `record_type`, if it has one.
    fn name_record(&self, record_type: RecordType) -> (r: Option<&str>)
        ensures
            match r {
                Some(text) => name_record_of(self.tables(), record_type) == Some(text@),
                None => name_record_of(self.tables(), record_type) is None,
            },
    ;

    /// The name that identifies the font, if it has one.
    fn id(&self) -> (r: Option<&str>)
        ensures
            match r {
                Some(text) => name_record_of(self.tables(), RecordType::UniqueIdentifier) == Some(
                    text@,
                ),
                None => name_record_of(self.tables(), RecordType::UniqueIdentifier) is None,
            },
    ;

    /// The glyph with the index `glyph_id`, if the font has one.
    fn glyph(&self, glyph_id: u32) -> (r: Option<&Glyph>)
        ensures
            match r {
                Some(glyph) => glyph_of(self.tables(), glyph_id) == Some(glyph@),
                None => glyph_of(self.tables(), glyph_id) is None,
            },
    ;

    /// The number of font design units per em. The font must have a `head`
    /// table, as every font that was read in full has.
    fn units_per_em(&self) -> (r: u16)
        requires
            head_of(self.tables()) is Some,
        ensures
            r == head_of(self.tables())->Some_0.units_per_em,
    ;
}

impl Trait for Font {
    open spec fn tables(&self) -> Seq<TableView> {
        crate::tables::views(self@)
    }

    #[verifier::loop_isolation(false)]
    fn name_record(&self, record_type: RecordType) -> (r: Option<&str>) {
        let name_table = match crate::tables::first_name(self.as_slice()) {
            Some(table) => table,
            None => {
                return None;
            },
        };
        let ghost records = crate::tables::name::views(name_table.records@);
        let mut i: usize = 0;
        assert(records.skip(0) =~= records);
        while i < name_table.records.len()
            invariant
                i <= name_table.records@.len(),
                text_of(records, record_type) == text_of(records.skip(i as int), record_type),
            decreases name_table.records@.len() - i,
        {
            if name_table.records[i].name == record_type {
                return Some(name_table.records[i].string.as_str());
            }
            assert(records.skip(i as int).skip(1) =~= records.skip(i + 1));
            i = i + 1;
        }
        None
    }

    fn id(&self) -> (r: Option<&str>) {
        self.name_record(RecordType::UniqueIdentifier)
    }

    fn glyph(&self, glyph_id: u32) -> (r: Option<&Glyph>) {
        let glyphs = match crate::tables::first_glyf(self.as_slice()) {
            Some(glyphs) => glyphs,
            None => {
                return None;
            },
        };
        if (glyph_id as usize) < glyphs.len() {
            Some(&glyphs[glyph_id as usize])
        } else {
            None
        }
    }

    fn units_per_em(&self) -> (r: u16) {
        match crate::tables::first_head(self.as_slice()) {
            Some(head) => head.units_per_em,
            None => vstd::pervasive::unreached(),
        }
    }
}

/// The fonts that were read, each behind a key.
pub struct Collection {
    loaded: Slotmap<Font>,
}

impl View for Collection {
    type V = ArenaView<Font>;

    closed spec fn view(&self) -> ArenaView<Font> {
        self.loaded@
    }
}

impl Collection {
    /// The invariant of the collection.
    pub closed spec fn wf(&self) -> bool {
        self.loaded.wf()
    }

    /// The invariant of the collection implies that of its plain values.
    pub proof fn lemma_wf(&self)
        requires
            self.wf(),
        ensures
            self@.wf(),
            0 <= self@.len() <= u16::MAX,
    {
        self.loaded.lemma_wf();
    }

    /// A collection without a font.
    pub fn new() -> (fonts: Self)
        ensures
            fonts.wf(),
            fonts@.entries.len() == 0,
            fonts@.free.len() == 0,
    {
        Collection { loaded: Slotmap::new() }
    }

    /// The number of fonts held.
    pub fn len(&self) -> (n: u16)
        requires
            self.wf(),
        ensures
            n == self@.len(),
    {
        self.loaded.len()
    }

    /// Whether `key` names a font of the collection.
    pub fn contains(&self, key: Key) -> (b: bool)
        requires
            self.wf(),
        ensures
            b == self@.valid(key),
    {
        self.loaded.contains(key)
    }

    /// Takes `font` into the collection and gives the key that names it
    /// from now on. The collection must hold fewer fonts than it can.
    pub fn add_loaded(&mut self, font: Font) -> (key: Key)
        requires
            old(self).wf(),
            old(self)@.len() < CAPACITY,
        ensures
            final(self).wf(),
            key == old(self)@.next_key(),
            final(self)@ == old(self)@.pushed(font),
            !old(self)@.valid(key),
            final(self)@.valid(key),
            final(self)@.value(key) == font,
            forall|k: Key| #[trigger]
                old(self)@.valid(k) ==> final(self)@.valid(k) && final(self)@.value(k) == old(
                    self,
                )@.value(k),
    {
        self.loaded.push(font)
    }

    /// The font that `key` names. The key must be one that the collection
    /// handed out and whose font it still holds.
    pub fn get(&self, key: Key) -> (font: &Font)
        requires
            self.wf(),
            self@.valid(key),
        ensures
            *font == self@.value(key),
    {
        match self.loaded.get(key) {
            Some(font) => font,
            None => vstd::pervasive::unreached(),
        }
    }
}

} // verus!

use crate::bytes::{le_u16_at, le_u32_at, le_u64_at, read_u16_le, read_u32_le, read_u64_le};
use crate::cluster::{
    alloc_readable, lemma_read_fault_eof, min, read_fault, ClustersReader, ReadError,
};
use crate::disk::DiskPartition;
use crate::timestamp::{Timestamp, Timestamps};
use crate::{ExFat, FileAttributes};
use vstd::prelude::*;

verus! {

/// Bytes in a directory entry.
pub const ENTRY_SIZE: usize = 32;

/// The category of a primary entry.
pub const PRIMARY: u8 = 0;

/// The category of a secondary entry.
pub const SECONDARY: u8 = 1;

/// The importance of a critical entry.
pub const CRITICAL: u8 = 0;

/// The importance of a benign entry.
pub const BENIGN: u8 = 1;

/// The name that `String::from_utf16_lossy` gives to a sequence of UTF-16
/// code units.
pub uninterp spec fn utf16_lossy(units: Seq<u16>) -> Seq<char>;

/// Relies on `String::from_utf16_lossy`: the string that the code units
/// encode, with U+FFFD in place of each unpaired surrogate. A unit outside
/// the surrogate range (0xD800 to 0xDFFF) is the character of that code
/// point by itself, so units that are all outside it give their characters
/// one for one.
#[verifier::external_body]
pub(crate) fn string_from_utf16_lossy(units: &[u16]) -> (r: String)
    ensures
        r@ == utf16_lossy(units@),
        (forall|i: int| 0 <= i < units@.len() ==> #[trigger] units@[i] < 0xD800 || units@[i] > 0xDFFF)
            ==> r@.len() == units@.len() && forall|i: int|
            0 <= i < units@.len() ==> #[trigger] r@[i] as u32 == units@[i] as u32,
{
    String::from_utf16_lossy(units)
}

/// The EntryType byte of a directory entry.
#[derive(Clone, Copy, Debug, PartialEq, Eq, Structural)]
pub struct EntryType(pub u8);

impl EntryType {
    /// The in-use bit (bit 7) is set.
    pub fn is_regular(self) -> (r: bool)
        ensures
            r == (self.0 >= 128),
    {
        self.0 >= 128
    }

    /// Bit 6: primary (0) or secondary (1).
    pub fn type_category(self) -> (r: u8)
        ensures
            r == (self.0 / 64) % 2,
    {
        (self.0 / 64) % 2
    }

    /// Bit 5: critical (0) or benign (1).
    pub fn type_importance(self) -> (r: u8)
        ensures
            r == (self.0 / 32) % 2,
    {
        (self.0 / 32) % 2
    }

    /// Bits 0 to 4.
    pub fn type_code(self) -> (r: u8)
        ensures
            r == self.0 % 32,
    {
        self.0 % 32
    }
}

/// Whether `ty` is in use, secondary, critical and of type code `code`.
pub open spec fn is_critical_secondary(ty: u8, code: u8) -> bool {
    ty >= 128 && (ty / 64) % 2 == SECONDARY && (ty / 32) % 2 == CRITICAL && ty % 32 == code
}

/// One 32-byte record of a directory.
pub struct RawEntry {
    index: u64,
    cluster: usize,
    data: Vec<u8>,
}

impl RawEntry {
    pub closed spec fn spec_index(&self) -> u64 {
        self.index
    }

    pub closed spec fn spec_cluster(&self) -> usize {
        self.cluster
    }

    pub closed spec fn view(&self) -> Seq<u8> {
        self.data@
    }

    pub closed spec fn wf(&self) -> bool {
        self.data@.len() == ENTRY_SIZE
    }

    pub fn ty(&self) -> (r: EntryType)
        requires
            self.wf(),
        ensures
            r.0 == self@[0],
    {
        EntryType(self.data[0])
    }

    /// The record's position among the records of its directory.
    pub fn index(&self) -> (r: u64)
        ensures
            r == self.spec_index(),
    {
        self.index
    }

    /// The cluster that holds the record.
    pub fn cluster(&self) -> (r: usize)
        ensures
            r == self.spec_cluster(),
    {
        self.cluster
    }

    pub fn data(&self) -> (r: &[u8])
        requires
            self.wf(),
        ensures
            r@ == self@,
            r@.len() == ENTRY_SIZE,
    {
        self.data.as_slice()
    }
}

/// Reads the 32-byte records of a directory, in order.
pub struct EntriesReader<P: DiskPartition> {
    reader: ClustersReader<P>,
}

impl<P: DiskPartition> EntriesReader<P> {
    pub closed spec fn wf(&self) -> bool {
        self.reader.wf()
    }

    /// The bytes of the directory.
    pub closed spec fn stream(&self) -> Seq<u8> {
        self.reader.stream()
    }

    /// The offset of the next record.
    pub closed spec fn position(&self) -> int {
        self.reader.position()
    }

    pub closed spec fn spec_reader(&self) -> ClustersReader<P> {
        self.reader
    }

    pub proof fn lemma_wf(&self)
        requires
            self.wf(),
        ensures
            0 <= self.position() <= self.stream().len(),
    {
        self.reader.lemma_wf();
    }

    pub fn new(reader: ClustersReader<P>) -> (r: Self)
        requires
            reader.wf(),
            reader.position() == 0,
        ensures
            r.wf(),
            r.stream() == reader.stream(),
            r.position() == 0,
            r.spec_reader() == reader,
    {
        EntriesReader { reader }
    }

    /// Reads the next record.
    pub fn read(&mut self) -> (r: Result<RawEntry, ReadError<P::Err>>)
        requires
            old(self).wf(),
        ensures
            final(self).wf(),
            final(self).stream() == old(self).stream(),
            old(self).position() <= final(self).position() <= final(self).stream().len(),
            r matches Ok(e) ==> {
                &&& e.wf()
                &&& old(self).position() + 32 <= old(self).stream().len()
                &&& e@ == old(self).stream().subrange(
                    old(self).position(),
                    old(self).position() + 32,
                )
                &&& e.spec_index() == old(self).position() / 32
                &&& e.spec_cluster() == old(self).spec_reader().cluster_at(
                    old(self).position() / old(self).spec_reader().cluster_size(),
                )
                &&& final(self).position() == old(self).position() + 32
            },
            final(self).spec_reader().same_layout(&old(self).spec_reader()),
            r matches Err(e) ==> read_fault(
                old(self).spec_reader().spec_exfat(),
                old(self).spec_reader().spec_first(),
                old(self).spec_reader().spec_no_fat_chain(),
                old(self).stream().len() as int,
                e,
                old(self).position(),
                32,
            ),
            alloc_readable(
                old(self).spec_reader().spec_exfat(),
                old(self).spec_reader().spec_first(),
                old(self).spec_reader().spec_no_fat_chain(),
                old(self).position(),
                min(old(self).position() + 32, old(self).stream().len() as int),
            ) ==> if old(self).position() + 32 <= old(self).stream().len() {
                r is Ok
            } else {
                r matches Err(ReadError::UnexpectedEof)
            },
            r matches Err(ReadError::UnexpectedEof) ==> old(self).position() + 32
                > old(self).stream().len() && final(self).position() == old(self).stream().len(),
            r matches Err(ReadError::ClusterUnavailable(c)) ==> exists|i: int|
                old(self).position() <= i < old(self).position() + 32 && i < old(
                    self,
                ).stream().len() && !#[trigger] old(self).spec_reader().byte_readable(i) && c
                    == old(self).spec_reader().cluster_at(
                    i / old(self).spec_reader().cluster_size(),
                ),
            r matches Err(ReadError::ReadFailed(..)) ==> !old(self).spec_reader().readable(
                old(self).position(),
                min(old(self).position() + 32, old(self).stream().len() as int),
            ),
            old(self).spec_reader().readable(
                old(self).position(),
                min(old(self).position() + 32, old(self).stream().len() as int),
            ) ==> if old(self).position() + 32 <= old(self).stream().len() {
                r is Ok
            } else {
                r matches Err(ReadError::UnexpectedEof)
            },
    {
        proof {
            self.reader.lemma_wf();
        }
        if self.reader.stream_position() >= self.reader.data_length() {
            proof {
                lemma_read_fault_eof(
                    self.spec_reader().spec_exfat(),
                    self.spec_reader().spec_first(),
                    self.spec_reader().spec_no_fat_chain(),
                    self.stream().len() as int,
                    self.position(),
                    32,
                );
            }
            return Err(ReadError::UnexpectedEof);
        }
        let cluster = self.reader.cluster();
        let index = self.reader.stream_position() / 32;
        let ghost before = self.spec_reader();
        let ghost pos = self.position();
        let data = match self.reader.read_exact(ENTRY_SIZE) {
            Ok(v) => v,
            Err(e) => {
                proof {
                    self.reader.lemma_wf();
                    if let ReadError::ClusterUnavailable(c) = e {
                        let i = choose|i: int|
                            pos <= i < pos + 32 && i < before.spec_data_length()
                                && !#[trigger] before.byte_readable(i) && c == before.cluster_at(
                                i / before.cluster_size(),
                            );
                        assert(i < before.stream().len());
                    }
                }
                return Err(e);
            },
        };
        proof {
            self.reader.lemma_wf();
        }
        Ok(RawEntry { index, cluster, data })
    }
}

/// Where the data of a file, a directory or a table lies.
#[derive(Clone, Copy, Debug, PartialEq, Eq, Structural)]
pub struct ClusterAllocation {
    pub first_cluster: usize,
    pub data_length: u64,
}

impl ClusterAllocation {
    /// FirstCluster at byte 20 and DataLength at byte 24 of a record.
    pub fn load(entry: &RawEntry) -> (r: Self)
        requires
            entry.wf(),
        ensures
            r.first_cluster == le_u32_at(entry@, 20),
            r.data_length == le_u64_at(entry@, 24),
    {
        let data = entry.data();
        ClusterAllocation {
            first_cluster: read_u32_le(data, 20) as usize,
            data_length: read_u64_le(data, 24),
        }
    }

    pub fn first_cluster(&self) -> (r: usize)
        ensures
            r == self.first_cluster,
    {
        self.first_cluster
    }

    pub fn data_length(&self) -> (r: u64)
        ensures
            r == self.data_length,
    {
        self.data_length
    }
}

/// A Stream Extension entry.
#[derive(Clone, Copy, Debug, PartialEq, Eq, Structural)]
pub struct StreamEntry {
    pub allocation_possible: bool,
    pub no_fat_chain: bool,
    pub name_length: u8,
    pub name_hash: u16,
    pub valid_data_length: u64,
    pub allocation: ClusterAllocation,
}

impl StreamEntry {
    pub fn allocation(&self) -> (r: &ClusterAllocation)
        ensures
            *r == self.allocation,
    {
        &self.allocation
    }

    pub fn no_fat_chain(&self) -> (r: bool)
        ensures
            r == self.no_fat_chain,
    {
        self.no_fat_chain
    }

    pub fn valid_data_length(&self) -> (r: u64)
        ensures
            r == self.valid_data_length,
    {
        self.valid_data_length
    }
}

/// Appends `src` to `dst`.
fn append_bytes(dst: &mut Vec<u8>, src: &[u8])
    ensures
        final(dst)@ == old(dst)@ + src@,
{
    let mut i: usize = 0;
    while i < src.len()
        invariant
            i <= src@.len(),
            dst@ == old(dst)@ + src@.subrange(0, i as int),
        decreases src@.len() - i,
    {
        dst.push(src[i]);
        i += 1;
        assert(dst@ =~= old(dst)@ + src@.subrange(0, i as int));
    }
    assert(src@.subrange(0, src@.len() as int) =~= src@);
}

/// The checksum after one more byte: rotate right by one bit, then add.
pub open spec fn checksum_step(c: u16, b: u8) -> u16 {
    (((c as int % 2) * 32768 + c as int / 2 + b as int) % 65536) as u16
}

/// The checksum of an entry set whose records are `bytes`, skipping bytes 2
/// and 3 of the primary record, which hold the checksum itself.
pub open spec fn set_checksum_of(bytes: Seq<u8>) -> u16
    decreases bytes.len(),
{
    if bytes.len() == 0 {
        0
    } else {
        let prev = set_checksum_of(bytes.drop_last());
        let i = bytes.len() - 1;
        if i == 2 || i == 3 {
            prev
        } else {
            checksum_step(prev, bytes.last())
        }
    }
}

/// Computes the checksum of an entry set.
pub fn entry_set_checksum(bytes: &[u8]) -> (r: u16)
    ensures
        r == set_checksum_of(bytes@),
{
    let mut c: u16 = 0;
    let mut i: usize = 0;
    while i < bytes.len()
        invariant
            i <= bytes@.len(),
            c == set_checksum_of(bytes@.subrange(0, i as int)),
        decreases bytes@.len() - i,
    {
        assert(bytes@.subrange(0, i + 1).drop_last() =~= bytes@.subrange(0, i as int));
        if i != 2 && i != 3 {
            let rotated: u32 = (c as u32 % 2) * 32768 + c as u32 / 2;
            c = ((rotated + bytes[i] as u32) % 65536) as u16;
        }
        i += 1;
    }
    assert(bytes@.subrange(0, bytes@.len() as int) =~= bytes@);
    c
}

/// Code unit `k` of a file name, from the File Name records that follow
/// the File and Stream Extension records in `set`: 15 units from byte 2 of
/// each.
pub open spec fn name_unit(set: Seq<u8>, k: int) -> int {
    le_u16_at(set, 64 + 32 * (k / 15) + 2 + 2 * (k % 15))
}

/// A UtcOffset byte: bit 7 says whether bits 0 to 6 hold a signed offset;
/// where they do not, the offset is 0.
pub open spec fn utc_offset_of(b: u8) -> i8 {
    if b >= 128 {
        if b >= 192 {
            (b as int - 256) as i8
        } else {
            (b - 128) as i8
        }
    } else {
        0
    }
}

/// Decodes a UtcOffset byte.
pub fn decode_utc_offset(b: u8) -> (r: i8)
    ensures
        r == utc_offset_of(b),
{
    if b >= 128 {
        if b >= 192 {
            (b as i16 - 256) as i8
        } else {
            (b - 128) as i8
        }
    } else {
        0
    }
}

/// `t` is the timestamp at byte `at` of a File record, with the increment
/// at `ms_at` (none where it is negative) and the offset at `utc_at`.
pub open spec fn is_timestamp_at(t: Timestamp, b: Seq<u8>, at: int, ms_at: int, utc_at: int) -> bool {
    &&& t.spec_timestamp() == le_u32_at(b, at)
    &&& t.spec_ms_increment() == if ms_at < 0 {
        0
    } else {
        b[ms_at]
    }
    &&& t.spec_utc_offset() == utc_offset_of(b[utc_at])
}

/// A File entry with its Stream Extension and File Name entries.
pub struct FileEntry {
    pub name: String,
    pub attributes: FileAttributes,
    pub secondary_count: u8,
    pub set_checksum: u16,
    pub timestamps: Timestamps,
    pub stream: StreamEntry,
}

/// Why an entry set could not be loaded.
#[derive(Debug)]
pub enum FileEntryError<E> {
    ReadFailed(ReadError<E>),
    /// A record of the set is missing or of the wrong kind; the record's
    /// index and cluster.
    MalformedEntrySet(u64, usize),
    BadChecksum,
    InvalidName,
}

/// The Stream Extension entry of an entry set: its second record.
pub open spec fn set_stream(set: Seq<u8>) -> StreamEntry {
    StreamEntry {
        allocation_possible: set[33] % 2 == 1,
        no_fat_chain: (set[33] / 2) % 2 == 1,
        name_length: set[35],
        name_hash: le_u16_at(set, 36) as u16,
        valid_data_length: le_u64_at(set, 40) as u64,
        allocation: ClusterAllocation {
            first_cluster: le_u32_at(set, 52) as usize,
            data_length: le_u64_at(set, 56) as u64,
        },
    }
}

/// The name of an entry set: its first NameLength code units.
pub open spec fn set_name(set: Seq<u8>) -> Seq<char> {
    utf16_lossy(Seq::new(set[35] as nat, |k: int| name_unit(set, k) as u16))
}

/// `ts` holds the three timestamps of the File record of `set`.
pub open spec fn timestamps_of(ts: Timestamps, set: Seq<u8>) -> bool {
    &&& is_timestamp_at(ts.spec_created(), set, 8, 20, 22)
    &&& is_timestamp_at(ts.spec_modified(), set, 12, 21, 23)
    &&& is_timestamp_at(ts.spec_accessed(), set, 16, -1, 24)
}

/// What a valid entry set `set` (its records, from the File record on)
/// holds.
pub open spec fn file_entry_of(f: FileEntry, set: Seq<u8>) -> bool {
    &&& f.secondary_count == set[1]
    &&& f.set_checksum == le_u16_at(set, 2)
    &&& f.attributes.0 == le_u16_at(set, 4)
    &&& timestamps_of(f.timestamps, set)
    &&& f.stream == set_stream(set)
    &&& f.stream.valid_data_length <= f.stream.allocation.data_length
    &&& f.name@ == set_name(set)
    &&& set_checksum_of(set) == f.set_checksum
}

/// What the records of an entry set make of it, reads aside.
#[derive(PartialEq, Eq, Structural)]
pub enum SetVerdict {
    Valid,
    /// Record `j` of the set is missing or of the wrong kind: 0 for a File
    /// record without secondary records, 1 for the Stream Extension, and
    /// from 2 on for the File Name records.
    Malformed(int),
    BadChecksum,
    InvalidName,
}

/// Secondary record `j` (from 1) of the set whose secondary records start
/// at `p` of `s` is not what it must be: a Stream Extension whose valid
/// data length lies within its data length, then File Name records.
pub open spec fn record_bad(s: Seq<u8>, p: int, j: int) -> bool {
    let e = s.subrange(p + 32 * (j - 1), p + 32 * j);
    if j == 1 {
        !is_critical_secondary(e[0], 0) || le_u64_at(e, 8) > le_u64_at(e, 24)
    } else {
        !is_critical_secondary(e[0], 1)
    }
}

/// The first bad secondary record among records `j` to `count`.
pub open spec fn first_bad(s: Seq<u8>, p: int, j: int, count: int) -> Option<int>
    decreases count + 1 - j,
{
    if j > count {
        None
    } else if record_bad(s, p, j) {
        Some(j)
    } else {
        first_bad(s, p, j + 1, count)
    }
}

/// The verdict on the entry set whose File record is `primary` and whose
/// secondary records start at `p` of `s`.
pub open spec fn set_verdict(primary: Seq<u8>, s: Seq<u8>, p: int) -> SetVerdict {
    let count = primary[1] as int;
    if count == 0 {
        SetVerdict::Malformed(0)
    } else {
        match first_bad(s, p, 1, count) {
            Some(j) => SetVerdict::Malformed(j),
            None => {
                let set = primary + s.subrange(p, p + 32 * count);
                if set_checksum_of(set) != le_u16_at(primary, 2) {
                    SetVerdict::BadChecksum
                } else if set[35] > 15 * (count - 1) {
                    SetVerdict::InvalidName
                } else {
                    SetVerdict::Valid
                }
            },
        }
    }
}

/// Extending a run of good secondary records by a good one keeps it good.
pub proof fn lemma_first_bad_extend(s: Seq<u8>, p: int, j: int, m: int)
    requires
        1 <= j <= m + 1,
        first_bad(s, p, j, m) is None,
        !record_bad(s, p, m + 1),
    ensures
        first_bad(s, p, j, m + 1) is None,
    decreases m + 1 - j,
{
    if j <= m {
        assert(!record_bad(s, p, j));
        assert(first_bad(s, p, j + 1, m) is None);
        lemma_first_bad_extend(s, p, j + 1, m);
    } else {
        assert(first_bad(s, p, j + 1, m + 1) is None);
    }
}

/// What causes the read error `e` while the `count` secondary records of
/// an entry set are read from `p` of the allocation of `vol` whose first
/// `len` bytes are `s`: the read of some record, all before it good.
pub open spec fn set_read_fault<P: DiskPartition>(
    vol: ExFat<P>,
    first: int,
    no_fat_chain: bool,
    s: Seq<u8>,
    p: int,
    count: int,
    e: ReadError<P::Err>,
) -> bool {
    exists|j: int|
        1 <= j <= count && first_bad(s, p, 1, j - 1) is None && #[trigger] read_fault(
            vol,
            first,
            no_fat_chain,
            s.len() as int,
            e,
            p + 32 * (j - 1),
            32,
        )
}

/// The error `fe` of loading the entry set whose File record is `primary`,
/// at record index `index`, with secondary records from `p` of `s`, is the
/// one that the verdict on the set gives, or a failed read.
pub open spec fn entry_error_fits<E>(
    fe: FileEntryError<E>,
    primary: Seq<u8>,
    index: u64,
    s: Seq<u8>,
    p: int,
) -> bool {
    match fe {
        FileEntryError::ReadFailed(_) => true,
        FileEntryError::MalformedEntrySet(i, _) => match set_verdict(primary, s, p) {
            SetVerdict::Malformed(j) => if j == 0 {
                i == index
            } else {
                i == (p + 32 * (j - 1)) / 32
            },
            _ => false,
        },
        FileEntryError::BadChecksum => set_verdict(primary, s, p) == SetVerdict::BadChecksum,
        FileEntryError::InvalidName => set_verdict(primary, s, p) == SetVerdict::InvalidName,
    }
}

/// Reads the next record, which must be a critical secondary entry of type
/// code `code`.
fn read_secondary<P: DiskPartition>(reader: &mut EntriesReader<P>, code: u8) -> (r: Result<
    RawEntry,
    FileEntryError<P::Err>,
>)
    requires
        old(reader).wf(),
    ensures
        final(reader).wf(),
        final(reader).stream() == old(reader).stream(),
        old(reader).position() <= final(reader).position() <= final(reader).stream().len(),
        r matches Ok(e) ==> {
            &&& e.wf()
            &&& e@ == old(reader).stream().subrange(
                old(reader).position(),
                old(reader).position() + 32,
            )
            &&& final(reader).position() == old(reader).position() + 32
            &&& is_critical_secondary(e@[0], code)
            &&& e.spec_index() == old(reader).position() / 32
        },
        !(r matches Err(FileEntryError::BadChecksum)),
        !(r matches Err(FileEntryError::InvalidName)),
        r matches Err(FileEntryError::ReadFailed(e)) ==> read_fault(
            old(reader).spec_reader().spec_exfat(),
            old(reader).spec_reader().spec_first(),
            old(reader).spec_reader().spec_no_fat_chain(),
            old(reader).stream().len() as int,
            e,
            old(reader).position(),
            32,
        ),
        final(reader).spec_reader().same_layout(&old(reader).spec_reader()),
        r matches Err(FileEntryError::MalformedEntrySet(i, _)) ==> {
            let p = old(reader).position();
            &&& p + 32 <= old(reader).stream().len()
            &&& !is_critical_secondary(old(reader).stream()[p], code)
            &&& i == p / 32
        },
        !(r matches Err(FileEntryError::MalformedEntrySet(..))) ==> r is Ok || r matches Err(
            FileEntryError::ReadFailed(_),
        ),
{
    let entry = match reader.read() {
        Ok(v) => v,
        Err(e) => return Err(FileEntryError::ReadFailed(e)),
    };
    let ty = entry.ty();
    if !ty.is_regular() || ty.type_category() != SECONDARY || ty.type_importance() != CRITICAL
        || ty.type_code() != code {
        return Err(FileEntryError::MalformedEntrySet(entry.index(), entry.cluster()));
    }
    Ok(entry)
}

/// The first `name_length` code units of the File Name records of `set`.
fn name_units(set: &[u8], name_length: usize) -> (r: Vec<u16>)
    requires
        name_length == 0 || 64 + 32 * ((name_length - 1) / 15) + 32 <= set@.len(),
    ensures
        r@ == Seq::new(name_length as nat, |k: int| name_unit(set@, k) as u16),
{
    let mut units: Vec<u16> = Vec::new();
    let mut i: usize = 0;
    let n = set.len();
    while i < name_length
        invariant
            n == set@.len(),
            i <= name_length,
            name_length == 0 || 64 + 32 * ((name_length - 1) / 15) + 32 <= set@.len(),
            units@.len() == i,
            forall|j: int| 0 <= j < i ==> #[trigger] units@[j] == name_unit(set@, j) as u16,
        decreases name_length - i,
    {
        proof {
            vstd::arithmetic::div_mod::lemma_div_is_ordered(i as int, (name_length - 1) as int, 15);
        }
        let at = 64 + 32 * (i / 15) + 2 + 2 * (i % 15);
        units.push(read_u16_le(set, at));
        i += 1;
    }
    assert(units@ =~= Seq::new(name_length as nat, |k: int| name_unit(set@, k) as u16));
    units
}

impl StreamEntry {
    /// The fields of a Stream Extension record.
    pub fn parse(entry: &RawEntry) -> (r: Self)
        requires
            entry.wf(),
        ensures
            r.allocation_possible == (entry@[1] % 2 == 1),
            r.no_fat_chain == ((entry@[1] / 2) % 2 == 1),
            r.name_length == entry@[3],
            r.name_hash == le_u16_at(entry@, 4),
            r.valid_data_length == le_u64_at(entry@, 8),
            r.allocation.first_cluster == le_u32_at(entry@, 20),
            r.allocation.data_length == le_u64_at(entry@, 24),
    {
        let data = entry.data();
        let flags = data[1];
        StreamEntry {
            allocation_possible: flags % 2 == 1,
            no_fat_chain: (flags / 2) % 2 == 1,
            name_length: data[3],
            name_hash: read_u16_le(data, 4),
            valid_data_length: read_u64_le(data, 8),
            allocation: ClusterAllocation::load(entry),
        }
    }
}

impl FileEntry {
    /// Loads the entry set whose File record is `primary`, reading its
    /// secondary records from `reader`.
    #[verifier::rlimit(60)]
    pub fn load<P: DiskPartition>(primary: &RawEntry, reader: &mut EntriesReader<P>) -> (r: Result<
        FileEntry,
        FileEntryError<P::Err>,
    >)
        requires
            primary.wf(),
            old(reader).wf(),
        ensures
            final(reader).wf(),
            final(reader).stream() == old(reader).stream(),
            old(reader).position() <= final(reader).position(),
            r matches Ok(f) ==> {
                let set = primary@ + old(reader).stream().subrange(
                    old(reader).position(),
                    final(reader).position(),
                );
                &&& final(reader).position() == old(reader).position() + 32 * primary@[1]
                &&& file_entry_of(f, set)
            },
            match r {
                Ok(_) => set_verdict(primary@, old(reader).stream(), old(reader).position())
                    == SetVerdict::Valid,
                Err(FileEntryError::ReadFailed(_)) => true,
                Err(FileEntryError::MalformedEntrySet(i, c)) => match set_verdict(
                    primary@,
                    old(reader).stream(),
                    old(reader).position(),
                ) {
                    SetVerdict::Malformed(j) => if j == 0 {
                        i == primary.spec_index() && c == primary.spec_cluster()
                    } else {
                        i == (old(reader).position() + 32 * (j - 1)) / 32
                    },
                    _ => false,
                },
                Err(FileEntryError::BadChecksum) => set_verdict(
                    primary@,
                    old(reader).stream(),
                    old(reader).position(),
                ) == SetVerdict::BadChecksum,
                Err(FileEntryError::InvalidName) => set_verdict(
                    primary@,
                    old(reader).stream(),
                    old(reader).position(),
                ) == SetVerdict::InvalidName,
            },
            r matches Err(fe) ==> entry_error_fits(
                fe,
                primary@,
                primary.spec_index(),
                old(reader).stream(),
                old(reader).position(),
            ),
            r matches Err(FileEntryError::ReadFailed(e)) ==> set_read_fault(
                old(reader).spec_reader().spec_exfat(),
                old(reader).spec_reader().spec_first(),
                old(reader).spec_reader().spec_no_fat_chain(),
                old(reader).stream(),
                old(reader).position(),
                primary@[1] as int,
                e,
            ),
            final(reader).spec_reader().same_layout(&old(reader).spec_reader()),
    {
        let data = primary.data();
        let secondary_count = data[1];
        let set_checksum = read_u16_le(data, 2);
        let attributes = FileAttributes(read_u16_le(data, 4));
        let timestamps = Timestamps::new(
            Timestamp::new(read_u32_le(data, 8), data[20], decode_utc_offset(data[22])),
            Timestamp::new(read_u32_le(data, 12), data[21], decode_utc_offset(data[23])),
            Timestamp::new(read_u32_le(data, 16), 0, decode_utc_offset(data[24])),
        );
        if secondary_count < 1 {
            return Err(FileEntryError::MalformedEntrySet(primary.index(), primary.cluster()));
        }
        let mut set: Vec<u8> = Vec::new();
        append_bytes(&mut set, data);
        let ghost start = reader.position();
        proof {
            reader.lemma_wf();
        }

        // Stream Extension.
        let ghost st = reader.stream();
        let entry = match read_secondary(reader, 0) {
            Ok(v) => v,
            Err(e) => {
                proof {
                    if e is MalformedEntrySet {
                        assert(st.subrange(start, start + 32)[0] == st[start]);
                        assert(first_bad(st, start, 1, secondary_count as int) == Some(1int));
                    }
                    if e is ReadFailed {
                        let re = e->ReadFailed_0;
                        assert(first_bad(st, start, 1, 0) is None);
                        assert(read_fault(
                            old(reader).spec_reader().spec_exfat(),
                            old(reader).spec_reader().spec_first(),
                            old(reader).spec_reader().spec_no_fat_chain(),
                            st.len() as int,
                            re,
                            start + 32 * (1 - 1),
                            32,
                        ));
                    }
                }
                return Err(e);
            },
        };
        let stream = StreamEntry::parse(&entry);
        if stream.valid_data_length > stream.allocation.data_length {
            assert(first_bad(st, start, 1, secondary_count as int) == Some(1int));
            return Err(FileEntryError::MalformedEntrySet(entry.index(), entry.cluster()));
        }
        assert(!record_bad(st, start, 1));
        proof {
            lemma_first_bad_extend(st, start, 1, 0);
        }
        append_bytes(&mut set, entry.data());
        assert(set@ =~= primary@ + reader.stream().subrange(start, reader.position()));
        let ghost head = set@;
        assert(forall|i: int| 0 <= i < 32 ==> #[trigger] head[32 + i] == entry@[i]);

        // File Name entries.
        let mut k: u8 = 1;
        while k < secondary_count
            invariant
                1 <= k <= secondary_count,
                secondary_count == primary@[1],
                primary@.len() == 32,
                reader.wf(),
                reader.stream() == old(reader).stream(),
                0 <= start,
                start == old(reader).position(),
                reader.position() == start + 32 * k,
                reader.position() <= reader.stream().len(),
                set@ == primary@ + reader.stream().subrange(start, reader.position()),
                set@.len() == 32 * (k + 1),
                head.len() == 64,
                forall|i: int| 0 <= i < 64 ==> #[trigger] set@[i] == head[i],
                st == old(reader).stream(),
                first_bad(st, start, 1, secondary_count as int) == first_bad(
                    st,
                    start,
                    k + 1,
                    secondary_count as int,
                ),
                first_bad(st, start, 1, k as int) is None,
                reader.spec_reader().same_layout(&old(reader).spec_reader()),
            decreases secondary_count - k,
        {
            let ghost pos = reader.position();
            let entry = match read_secondary(reader, 1) {
                Ok(v) => v,
                Err(e) => {
                    proof {
                        if e is ReadFailed {
                        let re = e->ReadFailed_0;
                            assert(pos == start + 32 * ((k + 1) - 1));
                            assert(first_bad(st, start, 1, (k + 1) - 1) is None);
                            assert(read_fault(
                                old(reader).spec_reader().spec_exfat(),
                                old(reader).spec_reader().spec_first(),
                                old(reader).spec_reader().spec_no_fat_chain(),
                                st.len() as int,
                                re,
                                start + 32 * ((k + 1) - 1),
                                32,
                            ));
                        }
                        if e is MalformedEntrySet {
                            assert(st.subrange(pos, pos + 32)[0] == st[pos]);
                            assert(pos == start + 32 * ((k + 1) - 1));
                            assert(first_bad(st, start, k + 1, secondary_count as int) == Some(
                                k + 1,
                            ));
                        }
                    }
                    return Err(e);
                },
            };
            assert(st.subrange(start + 32 * k, start + 32 * (k + 1)) =~= entry@);
            assert(!record_bad(st, start, k + 1));
            proof {
                lemma_first_bad_extend(st, start, 1, k as int);
            }
            assert(reader.stream().subrange(start, pos) + reader.stream().subrange(pos, pos + 32)
                =~= reader.stream().subrange(start, reader.position()));
            append_bytes(&mut set, entry.data());
            assert(set@ =~= primary@ + reader.stream().subrange(start, reader.position()));
            k += 1;
        }

        // Checksum.
        assert(first_bad(st, start, secondary_count + 1, secondary_count as int) is None);
        assert(set@ =~= primary@ + st.subrange(start, start + 32 * secondary_count));
        if entry_set_checksum(set.as_slice()) != set_checksum {
            return Err(FileEntryError::BadChecksum);
        }

        // Name.
        let name_length = stream.name_length as usize;
        if name_length > 15 * (secondary_count as usize - 1) {
            return Err(FileEntryError::InvalidName);
        }
        proof {
            if name_length > 0 {
                vstd::arithmetic::div_mod::lemma_div_is_ordered(
                    (name_length - 1) as int,
                    15 * (secondary_count - 1) - 1,
                    15,
                );
            }
        }
        let units = name_units(set.as_slice(), name_length);
        let name = string_from_utf16_lossy(units.as_slice());
        assert(stream == set_stream(set@));
        Ok(FileEntry { name, attributes, secondary_count, set_checksum, timestamps, stream })
    }
}

} // verus!

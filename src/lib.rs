pub mod bytes;
pub mod cluster;
pub mod directory;
pub mod disk;
pub mod entries;
pub mod fat;
pub mod file;
pub mod param;
pub mod timestamp;

pub use crate::directory::{Directory, DirectoryError, Item};
pub use crate::disk::{DiskPartition, PartitionError};

use crate::bytes::{le_u16_at, le_u32_at, read_u16_le};
use crate::cluster::{chain_stream, new_outcome, ClustersReader, NewError as ClustersNewError, ReadError};
use crate::directory::{file_fault_on, item_from_entry, item_of, lemma_file_fault};
use crate::disk::read_exact;
use crate::entries::{
    entry_error_fits, set_verdict, SetVerdict, string_from_utf16_lossy, utf16_lossy, ClusterAllocation, EntriesReader, FileEntry,
    FileEntryError, RawEntry, CRITICAL, PRIMARY,
};
use crate::fat::{fat_byte_offset, fat_chain, Fat, LoadError};
use crate::file::NewError as FileNewError;
use crate::param::{
    boot_params, is_exfat_signature, valid_bytes_per_sector_shift, valid_number_of_fats,
    valid_sectors_per_cluster_shift, Params,
};
use std::sync::Arc;
use vstd::prelude::*;

verus! {

/// The state of an opened volume, shared by its directories and files: the
/// partition, its geometry and its active FAT. It never changes.
pub struct ExFat<P: DiskPartition> {
    partition: P,
    params: Params,
    fat: Fat,
}

impl<P: DiskPartition> ExFat<P> {
    #[verifier::type_invariant]
    spec fn inv(&self) -> bool {
        &&& self.params.wf()
        &&& self.fat@.len() == self.params.cluster_count + 2
    }

    pub closed spec fn spec_params(&self) -> Params {
        self.params
    }

    pub closed spec fn spec_fat(&self) -> Seq<u32> {
        self.fat@
    }

    pub closed spec fn content(&self) -> Seq<u8> {
        self.partition.content()
    }

    /// The partition never fails a read of bytes that it holds.
    pub closed spec fn reliable(&self) -> bool {
        self.partition.reliable()
    }

    pub fn params(&self) -> (r: &Params)
        ensures
            *r == self.spec_params(),
            r.wf(),
    {
        proof {
            use_type_invariant(self);
        }
        &self.params
    }

    pub fn fat(&self) -> (r: &Fat)
        ensures
            r@ == self.spec_fat(),
            r@.len() == self.spec_params().cluster_count + 2,
    {
        proof {
            use_type_invariant(self);
        }
        &self.fat
    }

    pub fn partition(&self) -> (r: &P)
        ensures
            r.content() == self.content(),
            r.reliable() == self.reliable(),
    {
        &self.partition
    }
}

/// The FileAttributes field of a File entry.
#[derive(Clone, Copy, Debug, PartialEq, Eq, Structural)]
pub struct FileAttributes(pub u16);

impl FileAttributes {
    /// Bit 0.
    pub fn is_read_only(self) -> (r: bool)
        ensures
            r == (self.0 % 2 == 1),
    {
        self.0 % 2 == 1
    }

    /// Bit 1.
    pub fn is_hidden(self) -> (r: bool)
        ensures
            r == ((self.0 / 2) % 2 == 1),
    {
        (self.0 / 2) % 2 == 1
    }

    /// Bit 2.
    pub fn is_system(self) -> (r: bool)
        ensures
            r == ((self.0 / 4) % 2 == 1),
    {
        (self.0 / 4) % 2 == 1
    }

    /// Bit 4.
    pub fn is_directory(self) -> (r: bool)
        ensures
            r == ((self.0 / 16) % 2 == 1),
    {
        (self.0 / 16) % 2 == 1
    }

    /// Bit 5.
    pub fn is_archive(self) -> (r: bool)
        ensures
            r == ((self.0 / 32) % 2 == 1),
    {
        (self.0 / 32) % 2 == 1
    }
}

/// What the boot sector `boot` makes of a volume open: none where its
/// geometry is valid, else the error.
pub open spec fn boot_verdict<E>(boot: Seq<u8>) -> Option<RootError<E>> {
    if !is_exfat_signature(boot) {
        Some(RootError::NotExFat)
    } else if !valid_bytes_per_sector_shift(boot) {
        Some(RootError::InvalidBytesPerSectorShift)
    } else if !valid_sectors_per_cluster_shift(boot) {
        Some(RootError::InvalidSectorsPerClusterShift)
    } else if !valid_number_of_fats(boot) {
        Some(RootError::InvalidNumberOfFats)
    } else {
        None
    }
}

/// The active FAT of a partition that holds `content`, with geometry `p`.
pub open spec fn fat_entries(content: Seq<u8>, p: Params) -> Seq<u32> {
    let off = fat_byte_offset(p, p.volume_flags.0 as int % 2)->Some_0;
    Seq::new((p.cluster_count + 2) as nat, |i: int| le_u32_at(content, off + 4 * i) as u32)
}

/// The bytes of the root directory of a partition that holds `content`: its
/// whole cluster chain.
pub open spec fn root_records(content: Seq<u8>) -> Seq<u8> {
    let p = boot_params(content.subrange(0, 512));
    let fat = fat_entries(content, p);
    let first = p.first_cluster_of_root_directory as int;
    chain_stream(
        content,
        p,
        fat,
        first,
        p.spec_cluster_size() * fat_chain(fat, first, fat.len()).len(),
        false,
    )
}

/// Why the active FAT of a partition that holds `content` cannot be
/// loaded: `e` says where it would lie, or that it lies past 64 bits.
pub open spec fn fat_fault<E>(content: Seq<u8>, e: LoadError<E>) -> bool {
    let p = boot_params(content.subrange(0, 512));
    let k = p.volume_flags.0 as int % 2;
    match e {
        LoadError::InvalidFatLength => p.fat_length * k > u64::MAX || (fat_byte_offset(p, k) is Some
            && (p.cluster_count + 2) * 4 > usize::MAX),
        LoadError::InvalidFatOffset => fat_byte_offset(p, k) is None,
        LoadError::ReadFailed(o, _) => fat_byte_offset(p, k) == Some(o as int),
    }
}

impl<P: DiskPartition> ExFat<P> {
    /// Reads the main boot sector and loads the active FAT.
    pub fn open(partition: P) -> (r: Result<Self, RootError<P::Err>>)
        ensures
            partition.reliable() && partition.content().len() >= 512 ==> !(r matches Err(
                RootError::ReadMainBootFailed(_),
            )),
            !(r matches Err(RootError::ReadMainBootFailed(_))) ==> {
                let boot = partition.content().subrange(0, 512);
                &&& partition.content().len() >= 512
                &&& match boot_verdict::<P::Err>(boot) {
                    Some(e) => r == Err::<Self, RootError<P::Err>>(e),
                    None => (r is Ok || r matches Err(RootError::ReadFatRegionFailed(_))) && (
                    r matches Ok(v) ==> v.spec_params() == boot_params(boot)),
                }
            },
            r matches Ok(v) ==> v.content() == partition.content() && v.spec_fat() == fat_entries(
                partition.content(),
                v.spec_params(),
            ),
            r matches Err(RootError::ReadFatRegionFailed(e)) ==> fat_fault(partition.content(), e),
    {
        let boot = match read_exact(&partition, 0, 512) {
            Ok(v) => v,
            Err(e) => return Err(RootError::ReadMainBootFailed(e)),
        };
        let params = match Params::from_boot(boot.as_slice()) {
            Ok(v) => v,
            Err(e) => return Err(e),
        };
        let active_fat = params.volume_flags.active_fat();
        proof {
            assert(params.volume_flags.0 % 2 == boot@[106] % 2);
        }
        let fat = match Fat::load(&params, &partition, active_fat) {
            Ok(v) => v,
            Err(e) => return Err(RootError::ReadFatRegionFailed(e)),
        };
        assert(fat@ =~= fat_entries(partition.content(), params));
        Ok(ExFat { partition, params, fat })
    }
}

/// The label of a Volume Label record `e`: CharacterCount code units from
/// byte 2.
pub open spec fn label_of(e: Seq<u8>) -> Seq<char> {
    utf16_lossy(Seq::new(e[1] as nat, |i: int| le_u16_at(e, 2 + 2 * i) as u16))
}

/// Decodes a Volume Label record; at most 11 characters.
fn load_volume_label<E>(entry: &RawEntry) -> (r: Result<String, RootError<E>>)
    requires
        entry.wf(),
    ensures
        match r {
            Ok(l) => entry@[1] <= 11 && l@ == label_of(entry@),
            Err(e) => entry@[1] > 11 && e is InvalidVolumeLabel,
        },
{
    let data = entry.data();
    let count = data[1] as usize;
    if count > 11 {
        return Err(RootError::InvalidVolumeLabel);
    }
    let mut units: Vec<u16> = Vec::new();
    let mut i: usize = 0;
    while i < count
        invariant
            i <= count <= 11,
            data@.len() == 32,
            units@.len() == i,
            forall|j: int| 0 <= j < i ==> #[trigger] units@[j] == le_u16_at(data@, 2 + 2 * j) as u16,
        decreases count - i,
    {
        units.push(read_u16_le(data, 2 + 2 * i));
        i += 1;
    }
    assert(units@ =~= Seq::new(entry@[1] as nat, |i: int| le_u16_at(entry@, 2 + 2 * i) as u16));
    Ok(string_from_utf16_lossy(units.as_slice()))
}

/// The root directory of an opened volume: its label and its items.
pub struct Root<P: DiskPartition> {
    volume_label: Option<String>,
    items: Vec<Item<P>>,
    /// The bytes of the root directory.
    records: Ghost<Seq<u8>>,
    /// Where the entry set of each item starts among the records.
    set_offsets: Ghost<Seq<int>>,
    /// Where the Volume Label record lies among the records.
    label_offset: Ghost<int>,
    /// The volume that the items read from.
    volume: Ghost<ExFat<P>>,
}

/// The primary records of the root directory of a partition that holds
/// `content`, in order.
pub open spec fn root_walk(content: Seq<u8>) -> Seq<int> {
    walk_primaries(root_records(content), 0)
}

/// Record `i` of the walk over the root directory exists.
pub open spec fn in_walk(content: Seq<u8>, i: int) -> bool {
    0 <= i < root_walk(content).len()
}

/// The type byte of record `i` of the walk over the root directory.
pub open spec fn walk_type(content: Seq<u8>, i: int) -> u8 {
    root_records(content)[root_walk(content)[i]]
}

/// Byte `k` of record `i` of the walk over the root directory.
pub open spec fn walk_byte(content: Seq<u8>, i: int, k: int) -> u8 {
    root_records(content)[root_walk(content)[i] + k]
}

/// How many records of type `ty` come before record `i` of the walk.
pub open spec fn before(content: Seq<u8>, i: int, ty: u8) -> nat {
    count_type(root_records(content), root_walk(content).take(i), ty)
}

/// The number of FATs of a partition that holds `content`.
pub open spec fn fats_of(content: Seq<u8>) -> int {
    boot_params(content.subrange(0, 512)).number_of_fats as int
}

/// Why the root directory of a partition that holds `content` is rejected,
/// given the error `e`: the record of the walk where it comes, or the
/// counts at its end.
pub open spec fn root_fault<E>(content: Seq<u8>, e: RootError<E>) -> bool {
    let s = root_records(content);
    let w = root_walk(content);
    let p = boot_params(content.subrange(0, 512));
    match e {
        RootError::CreateClustersReaderFailed(ce) => new_outcome(
            p,
            fat_entries(content, p),
            p.first_cluster_of_root_directory as int,
            None,
            None,
        ) == Some(ce),
        RootError::NotPrimaryEntry(x, _) => exists|i: int|
            in_walk(content, i) && (#[trigger] walk_type(content, i) / 64) % 2 == 1 && x == w[i]
                / 32,
        RootError::TooManyAllocationBitmap => exists|i: int|
            in_walk(content, i) && #[trigger] walk_type(content, i) == 0x81 && before(
                content,
                i,
                0x81,
            ) >= fats_of(content),
        RootError::WrongAllocationBitmap => exists|i: int|
            in_walk(content, i) && #[trigger] walk_type(content, i) == 0x81 && before(
                content,
                i,
                0x81,
            ) < fats_of(content) && walk_byte(content, i, 1) % 2 != before(content, i, 0x81),
        RootError::MultipleUpcaseTable => exists|i: int|
            in_walk(content, i) && #[trigger] walk_type(content, i) == 0x82 && before(
                content,
                i,
                0x82,
            ) >= 1,
        RootError::MultipleVolumeLabel => exists|i: int|
            in_walk(content, i) && #[trigger] walk_type(content, i) == 0x83 && before(
                content,
                i,
                0x83,
            ) >= 1,
        RootError::InvalidVolumeLabel => exists|i: int|
            in_walk(content, i) && #[trigger] walk_type(content, i) == 0x83 && before(
                content,
                i,
                0x83,
            ) == 0 && walk_byte(content, i, 1) > 11,
        RootError::UnknownEntry(x, _) => exists|i: int|
            in_walk(content, i) && (#[trigger] walk_type(content, i) / 64) % 2 == 0 && walk_type(
                content,
                i,
            ) != 0x81 && walk_type(content, i) != 0x82 && walk_type(content, i) != 0x83
                && walk_type(content, i) != 0x85 && x == w[i] / 32,
        RootError::LoadFileEntryFailed(fe) => exists|i: int|
            in_walk(content, i) && #[trigger] walk_type(content, i) == 0x85 && entry_error_fits(
                fe,
                s.subrange(w[i], w[i] + 32),
                (w[i] / 32) as u64,
                s,
                w[i] + 32,
            ),
        RootError::CreateFileObjectFailed(x, _, _) => exists|i: int|
            in_walk(content, i) && #[trigger] walk_type(content, i) == 0x85 && set_verdict(
                s.subrange(w[i], w[i] + 32),
                s,
                w[i] + 32,
            ) == SetVerdict::Valid && file_fault_on(p, fat_entries(content, p), set_from(s, w[i]))
                && x == w[i] / 32,
        RootError::NoAllocationBitmap => count_type(s, w, 0x81) < fats_of(content),
        RootError::NoUpcaseTable => count_type(s, w, 0x81) == fats_of(content) && count_type(
            s,
            w,
            0x82,
        ) == 0,
        _ => true,
    }
}

/// The root directory of a partition that holds `content` is valid, boot
/// sector aside: its FAT lies within 64 bits, its clusters can be read, its
/// primary records are the tables a root holds, in order, its labels are
/// at most 11 characters long, and its File entry sets are valid and make
/// files.
pub open spec fn root_valid(content: Seq<u8>) -> bool {
    let p = boot_params(content.subrange(0, 512));
    let k = p.volume_flags.0 as int % 2;
    let s = root_records(content);
    let w = root_walk(content);
    &&& p.fat_length * k <= u64::MAX
    &&& (p.cluster_count + 2) * 4 <= usize::MAX
    &&& fat_byte_offset(p, k) is Some
    &&& new_outcome(
        p,
        fat_entries(content, p),
        p.first_cluster_of_root_directory as int,
        None,
        None,
    ) is None
    &&& root_tables(s, w, fats_of(content))
    &&& forall|i: int|
        in_walk(content, i) && #[trigger] walk_type(content, i) == 0x83 ==> walk_byte(content, i, 1)
            <= 11
    &&& forall|i: int|
        in_walk(content, i) && #[trigger] walk_type(content, i) == 0x85 ==> set_verdict(
            s.subrange(w[i], w[i] + 32),
            s,
            w[i] + 32,
        ) == SetVerdict::Valid && !file_fault_on(p, fat_entries(content, p), set_from(s, w[i]))
}

/// The records of type `ty` in the first `i` records of `w` are fewer than
/// in all of `w` where record `i` is of that type, and never more.
proof fn lemma_count_take(s: Seq<u8>, w: Seq<int>, i: int, ty: u8)
    requires
        0 <= i <= w.len(),
    ensures
        count_type(s, w.take(i), ty) <= count_type(s, w, ty),
        i < w.len() && s[w[i]] == ty ==> count_type(s, w.take(i), ty) + 1 <= count_type(
            s,
            w,
            ty,
        ),
    decreases w.len(),
{
    if i == w.len() {
        assert(w.take(i) =~= w);
    } else {
        lemma_count_take(s, w.drop_last(), i, ty);
        assert(w.drop_last().take(i) =~= w.take(i));
        if i + 1 < w.len() {
            lemma_count_take(s, w.drop_last(), i + 1, ty);
            assert(w.drop_last().take(i + 1) =~= w.take(i + 1));
        } else {
            assert(w.take(i + 1) =~= w);
        }
        assert(w.take(i + 1).drop_last() =~= w.take(i));
    }
}

/// Opening a partition whose root directory is valid fails only on the
/// boot sector or where a read fails.
pub proof fn lemma_valid_root<E>(content: Seq<u8>, e: RootError<E>)
    requires
        root_valid(content),
        root_fault(content, e),
        e matches RootError::ReadFatRegionFailed(le) ==> fat_fault(content, le),
    ensures
        e is ReadMainBootFailed || e is NotExFat || e is InvalidBytesPerSectorShift
            || e is InvalidSectorsPerClusterShift || e is InvalidNumberOfFats || e matches RootError::ReadFatRegionFailed(
            LoadError::ReadFailed(..),
        ) || e is ReadEntryFailed || e matches RootError::LoadFileEntryFailed(
            FileEntryError::ReadFailed(_),
        ),
{
    let s = root_records(content);
    let w = root_walk(content);
    let fats = fats_of(content);
    match e {
        RootError::NotPrimaryEntry(x, _) => {
            let i = choose|i: int|
                in_walk(content, i) && (#[trigger] walk_type(content, i) / 64) % 2 == 1 && x == w[i]
                    / 32;
            assert(s[w[i]] == walk_type(content, i));
        },
        RootError::UnknownEntry(x, _) => {
            let i = choose|i: int|
                in_walk(content, i) && (#[trigger] walk_type(content, i) / 64) % 2 == 0 && walk_type(
                    content,
                    i,
                ) != 0x81 && walk_type(content, i) != 0x82 && walk_type(content, i) != 0x83
                    && walk_type(content, i) != 0x85 && x == w[i] / 32;
            assert(s[w[i]] == walk_type(content, i));
        },
        RootError::TooManyAllocationBitmap => {
            let i = choose|i: int|
                in_walk(content, i) && #[trigger] walk_type(content, i) == 0x81 && before(
                    content,
                    i,
                    0x81,
                ) >= fats;
            lemma_count_take(s, w, i, 0x81);
        },
        RootError::WrongAllocationBitmap => {
            let i = choose|i: int|
                in_walk(content, i) && #[trigger] walk_type(content, i) == 0x81 && before(
                    content,
                    i,
                    0x81,
                ) < fats && walk_byte(content, i, 1) % 2 != before(content, i, 0x81);
            assert(s[w[i]] == 0x81);
        },
        RootError::MultipleUpcaseTable => {
            let i = choose|i: int|
                in_walk(content, i) && #[trigger] walk_type(content, i) == 0x82 && before(
                    content,
                    i,
                    0x82,
                ) >= 1;
            lemma_count_take(s, w, i, 0x82);
        },
        RootError::MultipleVolumeLabel => {
            let i = choose|i: int|
                in_walk(content, i) && #[trigger] walk_type(content, i) == 0x83 && before(
                    content,
                    i,
                    0x83,
                ) >= 1;
            lemma_count_take(s, w, i, 0x83);
        },
        _ => {},
    }
}

/// The value that a shared handle points to.
pub open spec fn shared_value<T>(a: &Arc<T>) -> T {
    **a
}

/// `vol` is the volume on a partition that holds `content`: its geometry
/// comes from the boot sector and its FAT is the active one.
pub open spec fn volume_matches<P: DiskPartition>(vol: ExFat<P>, content: Seq<u8>) -> bool {
    &&& vol.content() == content
    &&& vol.spec_params() == boot_params(content.subrange(0, 512))
    &&& vol.spec_fat() == fat_entries(content, vol.spec_params())
}

/// The record at `p` of the records `s` starts a File entry set: in use,
/// primary, critical, of type code 5.
pub open spec fn is_file_record(s: Seq<u8>, p: int) -> bool {
    s[p] >= 128 && (s[p] / 64) % 2 == 0 && (s[p] / 32) % 2 == 0 && s[p] % 32 == 5
}

/// The offsets of the File entry sets of the root directory whose records
/// are `s`, from the record at `p` on: a File entry set takes its
/// secondary records along, every other primary record stands alone, and
/// the first record that is not in use ends the directory.
pub open spec fn walk_files(s: Seq<u8>, p: int) -> Seq<int>
    decreases if p <= s.len() {
        s.len() - p
    } else {
        0
    },
{
    if p < 0 || p + 32 > s.len() || s[p] < 128 {
        seq![]
    } else if is_file_record(s, p) {
        seq![p] + walk_files(s, p + 32 * (1 + s[p + 1]))
    } else {
        walk_files(s, p + 32)
    }
}

/// The primary record that follows the one at `p` of the records `s`: a
/// File entry set takes its secondary records along.
pub open spec fn next_primary(s: Seq<u8>, p: int) -> int {
    if is_file_record(s, p) {
        p + 32 * (1 + s[p + 1])
    } else {
        p + 32
    }
}

/// The offsets of the primary records of the root directory whose records
/// are `s`, from the one at `p` on, up to the first record that is not in
/// use.
pub open spec fn walk_primaries(s: Seq<u8>, p: int) -> Seq<int>
    decreases if p <= s.len() {
        s.len() - p
    } else {
        0
    },
{
    if p < 0 || p + 32 > s.len() || s[p] < 128 {
        seq![]
    } else {
        seq![p] + walk_primaries(s, next_primary(s, p))
    }
}

/// How many of the records at `offsets` of `s` have the type byte `ty`.
pub open spec fn count_type(s: Seq<u8>, offsets: Seq<int>, ty: u8) -> nat
    decreases offsets.len(),
{
    if offsets.len() == 0 {
        0
    } else {
        count_type(s, offsets.drop_last(), ty) + if s[offsets.last()] == ty {
            1nat
        } else {
            0nat
        }
    }
}

/// The primary records at `offsets` of `s` are of the kinds a root
/// directory holds, `fats` Allocation Bitmaps (0x81), one Up-case Table
/// (0x82), at most one Volume Label (0x83), and File entries (0x85).
pub open spec fn root_tables(s: Seq<u8>, offsets: Seq<int>, fats: int) -> bool {
    &&& forall|i: int|
        0 <= i < offsets.len() ==> #[trigger] s[offsets[i]] == 0x81 || s[offsets[i]] == 0x82
            || s[offsets[i]] == 0x83 || s[offsets[i]] == 0x85
    &&& count_type(s, offsets, 0x81) == fats
    &&& count_type(s, offsets, 0x82) == 1
    &&& count_type(s, offsets, 0x83) <= 1
    &&& bitmaps_in_order(s, offsets)
}

/// Allocation Bitmap number `k` among the records at `offsets` of `s` is
/// the one of FAT `k`: bit 0 of its BitmapFlags.
pub open spec fn bitmaps_in_order(s: Seq<u8>, offsets: Seq<int>) -> bool {
    forall|i: int|
        0 <= i < offsets.len() && #[trigger] s[offsets[i]] == 0x81 ==> s[offsets[i] + 1] % 2
            == count_type(s, offsets.take(i), 0x81)
}

/// The records of the entry set that starts at `off` of the records `s`.
pub open spec fn set_from(s: Seq<u8>, off: int) -> Seq<u8> {
    s.subrange(off, off + 32 * (1 + s[off + 1]))
}

/// Item `i` of `items` is the entry set that starts at `offsets[i]` of the
/// records `s`, after the one of item `i - 1`.
pub open spec fn root_item_at<P: DiskPartition>(
    items: Seq<Item<P>>,
    offsets: Seq<int>,
    s: Seq<u8>,
    i: int,
    vol: ExFat<P>,
) -> bool {
    &&& 0 <= offsets[i]
    &&& offsets[i] + 32 * (1 + s[offsets[i] + 1]) <= s.len()
    &&& i > 0 ==> offsets[i - 1] < offsets[i]
    &&& item_of(items[i], set_from(s, offsets[i]), vol)
    &&& s[offsets[i]] == 0x85
    &&& set_verdict(s.subrange(offsets[i], offsets[i] + 32), s, offsets[i] + 32) == SetVerdict::Valid
}

/// `walked` with the primary record at `p` added; the counts of each type
/// grow by that record alone.
proof fn walk_step(s: Seq<u8>, walked: Seq<int>, p: int) -> (r: Seq<int>)
    requires
        bitmaps_in_order(s, walked),
        s[p] == 0x81 ==> s[p + 1] % 2 == count_type(s, walked, 0x81),
    ensures
        r == walked.push(p),
        bitmaps_in_order(s, r),
        forall|ty: u8|
            #[trigger] count_type(s, r, ty) == count_type(s, walked, ty) + if s[p] == ty {
                1nat
            } else {
                0nat
            },
{
    let r = walked.push(p);
    assert(r.drop_last() =~= walked);
    assert forall|i: int| 0 <= i < r.len() && #[trigger] s[r[i]] == 0x81 implies s[r[i] + 1] % 2
        == count_type(s, r.take(i), 0x81) by {
        if i < walked.len() {
            assert(r.take(i) =~= walked.take(i));
        } else {
            assert(r.take(i) =~= walked);
        }
    }
    r
}

/// `root` lists the root directory of a partition that holds `content`:
/// its items are the File entry sets along the root directory's records, in
/// order, and its label comes from a Volume Label record.
pub open spec fn root_lists<P: DiskPartition>(root: Root<P>, content: Seq<u8>) -> bool {
    &&& root.records() == root_records(content)
    &&& volume_matches(root.spec_volume(), content)
    &&& root.set_offsets() == walk_files(root.records(), 0)
    &&& root.set_offsets().len() == root.spec_items().len()
    &&& forall|i: int|
        0 <= i < root.spec_items().len() ==> #[trigger] root_item_at(
            root.spec_items(),
            root.set_offsets(),
            root.records(),
            i,
            root.spec_volume(),
        )
    &&& label_at(root.spec_volume_label(), root.records(), root.label_offset())
    &&& (root.spec_volume_label() is None <==> count_type(
        root.records(),
        walk_primaries(root.records(), 0),
        0x83,
    ) == 0)
    &&& root.spec_volume_label() is Some ==> exists|i: int|
        0 <= i < walk_primaries(root.records(), 0).len() && walk_primaries(root.records(), 0)[i]
            == root.label_offset()
    &&& root_tables(
        root.records(),
        walk_primaries(root.records(), 0),
        boot_params(content.subrange(0, 512)).number_of_fats as int,
    )
}

/// Adding an item at offset `p` keeps the earlier items where they are.
proof fn lemma_push_item<P: DiskPartition>(
    items: Seq<Item<P>>,
    offsets: Seq<int>,
    s: Seq<u8>,
    vol: ExFat<P>,
    pushed: Seq<Item<P>>,
    p: int,
)
    requires
        offsets.len() == items.len(),
        pushed.len() == items.len() + 1,
        forall|i: int| 0 <= i < items.len() ==> pushed[i] == items[i],
        forall|i: int| 0 <= i < items.len() ==> #[trigger] root_item_at(items, offsets, s, i, vol),
        root_item_at(pushed, offsets.push(p), s, items.len() as int, vol),
    ensures
        forall|i: int|
            0 <= i < pushed.len() ==> #[trigger] root_item_at(pushed, offsets.push(p), s, i, vol),
{
    assert forall|i: int| 0 <= i < pushed.len() implies #[trigger] root_item_at(
        pushed,
        offsets.push(p),
        s,
        i,
        vol,
    ) by {
        if i < items.len() {
            assert(root_item_at(items, offsets, s, i, vol));
            assert(offsets.push(p)[i] == offsets[i]);
            if i > 0 {
                assert(offsets.push(p)[i - 1] == offsets[i - 1]);
            }
        }
    }
}

/// Gathers the facts that make up `root_lists`.
proof fn lemma_root_lists<P: DiskPartition>(root: Root<P>, content: Seq<u8>)
    requires
        root.records() == root_records(content),
        volume_matches(root.spec_volume(), content),
        root.set_offsets() == walk_files(root.records(), 0),
        root.set_offsets().len() == root.spec_items().len(),
        forall|i: int|
            0 <= i < root.spec_items().len() ==> #[trigger] root_item_at(
                root.spec_items(),
                root.set_offsets(),
                root.records(),
                i,
                root.spec_volume(),
            ),
        label_at(root.spec_volume_label(), root.records(), root.label_offset()),
        root.spec_volume_label() is None <==> count_type(
            root.records(),
            walk_primaries(root.records(), 0),
            0x83,
        ) == 0,
        root.spec_volume_label() is Some ==> exists|i: int|
            0 <= i < walk_primaries(root.records(), 0).len() && walk_primaries(root.records(), 0)[i]
                == root.label_offset(),
        root_tables(root.records(), walk_primaries(root.records(), 0), fats_of(content)),
    ensures
        root_lists(root, content),
{
}

/// The bytes of a partition determine the listing of its root directory:
/// two listings of the same bytes have the same length, and their items
/// describe the same entry sets.
pub proof fn lemma_root_listing_determined<P: DiskPartition>(
    a: Root<P>,
    b: Root<P>,
    content: Seq<u8>,
)
    requires
        root_lists(a, content),
        root_lists(b, content),
    ensures
        a.spec_items().len() == b.spec_items().len(),
        forall|i: int|
            0 <= i < a.spec_items().len() ==> {
                let s = root_records(content);
                let set = set_from(s, walk_files(s, 0)[i]);
                item_of(#[trigger] a.spec_items()[i], set, a.spec_volume()) && item_of(
                    b.spec_items()[i],
                    set,
                    b.spec_volume(),
                )
            },
        volume_matches(a.spec_volume(), content) && volume_matches(b.spec_volume(), content),
{
    assert forall|i: int| 0 <= i < a.spec_items().len() implies {
        let s = root_records(content);
        let set = set_from(s, walk_files(s, 0)[i]);
        item_of(#[trigger] a.spec_items()[i], set, a.spec_volume()) && item_of(
            b.spec_items()[i],
            set,
            b.spec_volume(),
        )
    } by {
        assert(root_item_at(a.spec_items(), a.set_offsets(), a.records(), i, a.spec_volume()));
        assert(root_item_at(b.spec_items(), b.set_offsets(), b.records(), i, b.spec_volume()));
    }
}

/// A label, where there is one, is the one of the Volume Label record at
/// `off` of the records `s`.
pub open spec fn label_at(label: Option<Seq<char>>, s: Seq<u8>, off: int) -> bool {
    label matches Some(l) ==> 0 <= off && off + 32 <= s.len() && s[off] == 0x83 && l
        == label_of(s.subrange(off, off + 32))
}

impl<P: DiskPartition> Root<P> {
    pub closed spec fn spec_volume_label(&self) -> Option<Seq<char>> {
        match self.volume_label {
            Some(l) => Some(l@),
            None => None,
        }
    }

    pub closed spec fn spec_items(&self) -> Seq<Item<P>> {
        self.items@
    }

    pub closed spec fn records(&self) -> Seq<u8> {
        self.records@
    }

    pub closed spec fn set_offsets(&self) -> Seq<int> {
        self.set_offsets@
    }

    pub closed spec fn label_offset(&self) -> int {
        self.label_offset@
    }

    pub closed spec fn spec_volume(&self) -> ExFat<P> {
        self.volume@
    }

    /// Opens the volume on `partition` and lists its root directory.
    ///
    /// The root directory holds the Allocation Bitmaps, one for each FAT in
    /// order, exactly one Up-case Table, at most one Volume Label, and File
    /// entry sets, up to the first record that is not in use.
    #[verifier::rlimit(100)]
    pub fn open(partition: P) -> (r: Result<Self, RootError<P::Err>>)
        ensures
            partition.reliable() && partition.content().len() >= 512 ==> !(r matches Err(
                RootError::ReadMainBootFailed(_),
            )),
            !(r matches Err(RootError::ReadMainBootFailed(_))) ==> {
                let boot = partition.content().subrange(0, 512);
                &&& partition.content().len() >= 512
                &&& match boot_verdict::<P::Err>(boot) {
                    Some(e) => r == Err::<Self, RootError<P::Err>>(e),
                    None => !(r matches Err(RootError::NotExFat)) && !(r matches Err(
                        RootError::InvalidBytesPerSectorShift,
                    )) && !(r matches Err(RootError::InvalidSectorsPerClusterShift)) && !(r matches Err(
                        RootError::InvalidNumberOfFats,
                    )),
                }
            },
            r matches Ok(root) ==> root_lists(root, partition.content()),
            r matches Err(RootError::ReadFatRegionFailed(e)) ==> fat_fault(partition.content(), e),
            r matches Err(e) ==> root_fault(partition.content(), e),
    {
        let ghost content = partition.content();
        let exfat = match ExFat::open(partition) {
            Ok(v) => v,
            Err(e) => return Err(e),
        };
        assert(content.len() >= 512 && boot_verdict::<P::Err>(content.subrange(0, 512)) is None);
        let number_of_fats = exfat.params().number_of_fats;
        let root_cluster = exfat.params().first_cluster_of_root_directory as usize;
        let exfat = Arc::new(exfat);
        let reader = match ClustersReader::new(exfat.clone(), root_cluster, None, None) {
            Ok(v) => v,
            Err(e) => return Err(RootError::CreateClustersReaderFailed(e)),
        };
        let mut reader = EntriesReader::new(reader);
        let ghost s = reader.stream();
        proof {
            reader.lemma_wf();
        }

        let mut bitmaps: u8 = 0;
        let mut upcase_table = false;
        let mut volume_label: Option<String> = None;
        let mut items: Vec<Item<P>> = Vec::new();
        let ghost mut offsets: Seq<int> = Seq::empty();
        let ghost mut label_offset: int = 0;
        let ghost mut label_index: int = 0;
        let ghost mut walked: Seq<int> = Seq::empty();
        assert(s == root_records(content));
        loop
            invariant_except_break
                offsets + walk_files(s, reader.position()) == walk_files(s, 0),
                walked + walk_primaries(s, reader.position()) == walk_primaries(s, 0),
            invariant
                reader.wf(),
                reader.stream() == s,
                content == partition.content(),
                s == root_records(content),
                content.len() >= 512,
                boot_verdict::<P::Err>(content.subrange(0, 512)) is None,
                bitmaps <= number_of_fats,
                number_of_fats == boot_params(content.subrange(0, 512)).number_of_fats,
                0 <= reader.position() <= s.len(),
                forall|i: int|
                    0 <= i < walked.len() ==> #[trigger] s[walked[i]] == 0x81 || s[walked[i]]
                        == 0x82 || s[walked[i]] == 0x83 || s[walked[i]] == 0x85,
                count_type(s, walked, 0x81) == bitmaps,
                bitmaps_in_order(s, walked),
                count_type(s, walked, 0x82) == if upcase_table {
                    1nat
                } else {
                    0nat
                },
                count_type(s, walked, 0x83) == if volume_label is Some {
                    1nat
                } else {
                    0nat
                },
                offsets.len() == items@.len(),
                forall|i: int|
                    0 <= i < items@.len() ==> #[trigger] root_item_at(
                        items@,
                        offsets,
                        s,
                        i,
                        *exfat,
                    ),
                volume_matches(*exfat, content),
                items@.len() > 0 ==> offsets.last() < reader.position(),
                volume_label matches Some(l) ==> label_at(Some(l@), s, label_offset),
                volume_label is Some ==> 0 <= label_index < walked.len() && walked[label_index]
                    == label_offset,
            ensures
                offsets == walk_files(s, 0),
                walked == walk_primaries(s, 0),
            decreases s.len() - reader.position(),
        {
            let ghost pos = reader.position();
            let entry = match reader.read() {
                Ok(v) => v,
                Err(e) => return Err(RootError::ReadEntryFailed(e)),
            };
            let ty = entry.ty();
            if !ty.is_regular() {
                break;
            }
            let ghost n = walked.len() as int;
            proof {
                let w = walk_primaries(s, 0);
                assert(s[pos] == entry@[0]);
                assert(s[pos + 1] == entry@[1]);
                assert(walk_primaries(s, pos) == seq![pos] + walk_primaries(
                    s,
                    next_primary(s, pos),
                ));
                assert(w[n] == pos);
                assert(w.take(n) =~= walked);
                assert(in_walk(content, n));
                assert(walk_type(content, n) == entry@[0]);
                assert(walk_byte(content, n, 1) == entry@[1]);
                assert(forall|ty: u8| before(content, n, ty) == count_type(s, walked, ty));
            }
            if ty.type_category() != PRIMARY {
                return Err(RootError::NotPrimaryEntry(entry.index(), entry.cluster()));
            }
            let importance = ty.type_importance();
            let code = ty.type_code();
            if importance == CRITICAL && code == 1 {
                // Allocation Bitmap: one for each FAT, in order.
                if bitmaps >= number_of_fats {
                    return Err(RootError::TooManyAllocationBitmap);
                }
                if entry.data()[1] % 2 != bitmaps {
                    return Err(RootError::WrongAllocationBitmap);
                }
                assert(s[pos + 1] == entry@[1]);
                let _bitmap = ClusterAllocation::load(&entry);
                bitmaps = bitmaps + 1;
                proof {
                    walked = walk_step(s, walked, pos);
                }
            } else if importance == CRITICAL && code == 2 {
                // Up-case Table.
                if upcase_table {
                    return Err(RootError::MultipleUpcaseTable);
                }
                let _table = ClusterAllocation::load(&entry);
                upcase_table = true;
                proof {
                    walked = walk_step(s, walked, pos);
                }
            } else if importance == CRITICAL && code == 3 {
                // Volume Label.
                if volume_label.is_some() {
                    return Err(RootError::MultipleVolumeLabel);
                }
                volume_label = match load_volume_label(&entry) {
                    Ok(v) => Some(v),
                    Err(e) => return Err(e),
                };
                proof {
                    label_offset = pos;
                    label_index = walked.len() as int;
                    walked = walk_step(s, walked, pos);
                }
            } else if importance == CRITICAL && code == 5 {
                // File entry set.
                let file = match FileEntry::load(&entry, &mut reader) {
                    Ok(v) => v,
                    Err(e) => return Err(RootError::LoadFileEntryFailed(e)),
                };
                proof {
                    reader.lemma_wf();
                }
                let ghost set = entry@ + s.subrange(pos + 32, reader.position());
                assert(set =~= set_from(s, pos));
                let item = match item_from_entry(&exfat, file, Ghost(set)) {
                    Ok(v) => v,
                    Err(e) => {
                        proof {
                            lemma_file_fault(shared_value(&exfat), set);
                        }
                        return Err(
                            RootError::CreateFileObjectFailed(entry.index(), entry.cluster(), e),
                        );
                    },
                };
                let ghost n = items@.len();
                let ghost old_items = items@;
                items.push(item);
                proof {
                    assert(root_item_at(items@, offsets.push(pos), s, n as int, *exfat)) by {
                        assert(items@[n as int] == item);
                        assert(offsets.push(pos)[n as int] == pos);
                        if n > 0 {
                            assert(offsets.push(pos)[n - 1] == offsets.last());
                        }
                    }
                    lemma_push_item(old_items, offsets, s, shared_value(&exfat), items@, pos);
                    offsets = offsets.push(pos);
                    walked = walk_step(s, walked, pos);
                }
            } else {
                return Err(RootError::UnknownEntry(entry.index(), entry.cluster()));
            }
        }

        // The Allocation Bitmap of each FAT, and the Up-case Table.
        if bitmaps < number_of_fats {
            return Err(RootError::NoAllocationBitmap);
        }
        if !upcase_table {
            return Err(RootError::NoUpcaseTable);
        }
        let ghost w = walk_primaries(s, 0);
        assert(volume_matches(*exfat, content));
        assert(volume_label is Some ==> w[label_index] == label_offset);
        let root = Root {
            volume_label,
            items,
            records: Ghost(s),
            set_offsets: Ghost(offsets),
            label_offset: Ghost(label_offset),
            volume: Ghost(shared_value(&exfat)),
        };
        assert(root.spec_volume() == *exfat);
        assert(root.spec_volume_label() is Some ==> exists|i: int|
            0 <= i < w.len() && w[i] == label_offset) by {
            if root.spec_volume_label() is Some {
                assert(0 <= label_index < w.len() && w[label_index] == label_offset);
            }
        }
        proof {
            lemma_root_lists(root, content);
        }
        Ok(root)
    }

    /// The volume label, where the root directory has one.
    pub fn volume_label(&self) -> (r: Option<&str>)
        ensures
            match self.spec_volume_label() {
                Some(l) => r matches Some(v) && v@ == l,
                None => r is None,
            },
    {
        match &self.volume_label {
            Some(l) => Some(l.as_str()),
            None => None,
        }
    }

    /// The items of the root directory.
    pub fn into_iter(self) -> (r: Vec<Item<P>>)
        ensures
            r@ == self.spec_items(),
    {
        self.items
    }
}

/// Why a volume could not be opened.
#[derive(Debug)]
pub enum RootError<E> {
    ReadMainBootFailed(E),
    NotExFat,
    InvalidBytesPerSectorShift,
    InvalidSectorsPerClusterShift,
    InvalidNumberOfFats,
    ReadFatRegionFailed(LoadError<E>),
    CreateClustersReaderFailed(ClustersNewError),
    ReadEntryFailed(ReadError<E>),
    /// A secondary record where a primary one belongs; its index and cluster.
    NotPrimaryEntry(u64, usize),
    TooManyAllocationBitmap,
    WrongAllocationBitmap,
    MultipleUpcaseTable,
    MultipleVolumeLabel,
    InvalidVolumeLabel,
    LoadFileEntryFailed(FileEntryError<E>),
    /// The file of the entry set at the given index and cluster.
    CreateFileObjectFailed(u64, usize, FileNewError),
    /// A primary record of an unknown type; its index and cluster.
    UnknownEntry(u64, usize),
    NoAllocationBitmap,
    NoUpcaseTable,
}

} // verus!

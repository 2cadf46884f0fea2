use crate::bytes::le_u16_at;
use crate::cluster::{alloc_readable, alloc_stream, lemma_no_read_fault, new_outcome, read_fault, ClustersReader, NewError as ClustersNewError, ReadError};
use crate::disk::DiskPartition;
use crate::entries::{
    entry_error_fits, file_entry_of, first_bad, set_read_fault, set_checksum_of, set_verdict, SetVerdict, set_name, set_stream, timestamps_of, ClusterAllocation, EntriesReader,
    FileEntry, FileEntryError, StreamEntry, CRITICAL, PRIMARY,
};
use crate::file::{File, NewError as FileNewError};
use crate::param::Params;
use crate::timestamp::Timestamps;
use crate::ExFat;
use std::sync::Arc;
use vstd::prelude::*;

verus! {

/// A directory of the volume.
pub struct Directory<P: DiskPartition> {
    exfat: Arc<ExFat<P>>,
    name: String,
    stream: StreamEntry,
    timestamps: Timestamps,
}

/// An item of a directory.
pub enum Item<P: DiskPartition> {
    Directory(Directory<P>),
    File(File<P>),
}

/// Why a directory could not be listed.
#[derive(Debug)]
pub enum DirectoryError<E> {
    CreateClustersReaderFailed(ClusterAllocation, ClustersNewError),
    ReadEntryFailed(ReadError<E>),
    /// A secondary record where a primary one belongs; its index and cluster.
    NotPrimaryEntry(u64, usize),
    /// A primary record other than a File entry; its index and cluster.
    NotFileEntry(u64, usize),
    LoadFileEntryFailed(FileEntryError<E>),
    /// The file of the entry set at the given index and cluster.
    CreateFileObjectFailed(u64, usize, FileNewError),
}

/// The offset of entry set number `n` of a directory whose bytes are `s`,
/// where each set is a File record followed by its SecondaryCount records.
pub open spec fn set_start(s: Seq<u8>, n: nat) -> int
    decreases n,
{
    if n == 0 {
        0
    } else {
        let p = set_start(s, (n - 1) as nat);
        p + 32 * (1 + s[p + 1])
    }
}

/// Entry set number `n` starts with a record in use.
pub open spec fn in_use_at(s: Seq<u8>, n: nat) -> bool {
    s[set_start(s, n)] >= 128
}

/// The records of entry set number `n`.
pub open spec fn set_at(s: Seq<u8>, n: nat) -> Seq<u8> {
    s.subrange(set_start(s, n), set_start(s, n) + 32 * (1 + s[set_start(s, n) + 1]))
}

/// The Directory bit of the FileAttributes of an entry set.
pub open spec fn is_directory_set(set: Seq<u8>) -> bool {
    (le_u16_at(set, 4) / 16) % 2 == 1
}

/// `item` is the directory or the file of the volume `vol` that the entry
/// set `set` describes.
pub open spec fn item_of<P: DiskPartition>(item: Item<P>, set: Seq<u8>, vol: ExFat<P>) -> bool {
    match item {
        Item::Directory(d) => {
            &&& d.spec_exfat() == vol
            &&& set_checksum_of(set) == le_u16_at(set, 2)
            &&& is_directory_set(set)
            &&& d.spec_name() == set_name(set)
            &&& d.spec_stream() == set_stream(set)
            &&& timestamps_of(d.spec_timestamps(), set)
        },
        Item::File(f) => {
            &&& set_checksum_of(set) == le_u16_at(set, 2)
            &&& !is_directory_set(set)
            &&& f.spec_volume() matches Some(v) ==> v == vol
            &&& f.spec_volume() matches Some(v) ==> f.content() == alloc_stream(
                vol,
                set_stream(set).allocation.first_cluster as int,
                set_stream(set).valid_data_length as int,
                set_stream(set).no_fat_chain,
            )
            &&& f.spec_name() == set_name(set)
            &&& f.spec_len() == set_stream(set).valid_data_length
            &&& f.spec_data_length() == set_stream(set).allocation.data_length
            &&& f.has_no_clusters() == (set_stream(set).allocation.first_cluster == 0)
            &&& timestamps_of(f.spec_timestamps(), set)
            &&& f.wf()
            &&& f.position() == 0
        },
    }
}

/// Item number `i` of `items` is entry set number `i` of the directory
/// whose bytes are `s`.
pub open spec fn listed<P: DiskPartition>(
    items: Seq<Item<P>>,
    s: Seq<u8>,
    i: int,
    vol: ExFat<P>,
) -> bool {
    in_use_at(s, i as nat) && item_of(items[i], set_at(s, i as nat), vol) && valid_set_at(
        vol,
        s,
        i as nat,
    )
}

/// `items` lists the directory whose bytes are `s`: one item for each entry
/// set, up to the first record that is not in use.
pub open spec fn lists<P: DiskPartition>(items: Seq<Item<P>>, s: Seq<u8>, vol: ExFat<P>) -> bool {
    &&& forall|i: int| 0 <= i < items.len() ==> #[trigger] listed(items, s, i, vol)
    &&& set_start(s, items.len()) + 32 <= s.len()
    &&& s[set_start(s, items.len())] < 128
}

/// The bytes of a directory determine its listing: two listings of the
/// same bytes have the same length, and their items describe the same
/// entry sets.
pub proof fn lemma_listing_unique<P: DiskPartition>(
    a: Seq<Item<P>>,
    b: Seq<Item<P>>,
    s: Seq<u8>,
    vol: ExFat<P>,
)
    requires
        lists(a, s, vol),
        lists(b, s, vol),
    ensures
        a.len() == b.len(),
        forall|i: int|
            0 <= i < a.len() ==> item_of(#[trigger] a[i], set_at(s, i as nat), vol) && item_of(
                b[i],
                set_at(s, i as nat),
                vol,
            ),
{
    if a.len() < b.len() {
        assert(listed(b, s, a.len() as int, vol));
    } else if b.len() < a.len() {
        assert(listed(a, s, b.len() as int, vol));
    }
    assert forall|i: int| 0 <= i < a.len() implies item_of(#[trigger] a[i], set_at(s, i as nat), vol)
        && item_of(b[i], set_at(s, i as nat), vol) by {
        assert(listed(a, s, i, vol));
        assert(listed(b, s, i, vol));
    }
}

/// The directory or the file of a loaded entry set `set`.
pub(crate) fn item_from_entry<P: DiskPartition>(
    exfat: &Arc<ExFat<P>>,
    file: FileEntry,
    Ghost(set): Ghost<Seq<u8>>,
) -> (r: Result<Item<P>, FileNewError>)
    requires
        file_entry_of(file, set),
    ensures
        r matches Ok(item) ==> item_of(item, set, **exfat),
        r is Err <==> file_fault(**exfat, set),
{
    if file.attributes.is_directory() {
        Ok(Item::Directory(Directory::new(exfat.clone(), file.name, file.stream, file.timestamps)))
    } else {
        match File::new(exfat.clone(), file.name, file.stream, file.timestamps) {
            Ok(v) => Ok(Item::File(v)),
            Err(e) => Err(e),
        }
    }
}

/// The file that the entry set `set` describes cannot be made on a volume
/// with geometry `params` and FAT `fat`: its allocation is not one.
pub open spec fn file_fault_on(params: Params, fat: Seq<u32>, set: Seq<u8>) -> bool {
    let st = set_stream(set);
    let fc = st.allocation.first_cluster;
    let dl = st.allocation.data_length;
    &&& !is_directory_set(set)
    &&& (st.valid_data_length > dl || (fc == 0 && dl != 0) || (fc != 0 && new_outcome(
        params,
        fat,
        fc as int,
        Some(dl),
        Some(st.no_fat_chain),
    ) is Some))
}

/// The file that the entry set `set` describes cannot be made on the
/// volume `vol`.
pub closed spec fn file_fault<P: DiskPartition>(vol: ExFat<P>, set: Seq<u8>) -> bool {
    file_fault_on(vol.spec_params(), vol.spec_fat(), set)
}

/// What `file_fault` says, over the volume's geometry and FAT.
pub proof fn lemma_file_fault<P: DiskPartition>(vol: ExFat<P>, set: Seq<u8>)
    ensures
        file_fault(vol, set) == file_fault_on(vol.spec_params(), vol.spec_fat(), set),
{
}

/// Entry set number `m` starts with a File record.
pub open spec fn file_at(s: Seq<u8>, m: nat) -> bool {
    s[set_start(s, m)] == 0x85
}

/// The entry sets before number `n` are valid File entry sets whose files
/// can be made on the volume `vol`.
pub open spec fn valid_before<P: DiskPartition>(vol: ExFat<P>, s: Seq<u8>, n: nat) -> bool {
    forall|m: nat| m < n ==> #[trigger] valid_set_at(vol, s, m)
}

/// Why listing the directory of the volume `vol` whose allocation is
/// `stream` and whose bytes are `s` is rejected, given the error `e`: the
/// allocation, or the entry set where it comes.
pub open spec fn dir_fault<P: DiskPartition>(
    vol: ExFat<P>,
    stream: StreamEntry,
    s: Seq<u8>,
    e: DirectoryError<P::Err>,
) -> bool {
    match e {
        DirectoryError::CreateClustersReaderFailed(a, ce) => a == stream.allocation && new_outcome(
            vol.spec_params(),
            vol.spec_fat(),
            stream.allocation.first_cluster as int,
            Some(stream.allocation.data_length),
            Some(stream.no_fat_chain),
        ) == Some(ce),
        DirectoryError::NotPrimaryEntry(x, _) => exists|n: nat|
            valid_before(vol, s, n) && #[trigger] s[set_start(s, n)] >= 128 && (s[set_start(s, n)] / 64) % 2 == 1 && x
                == set_start(s, n) / 32,
        DirectoryError::NotFileEntry(x, _) => exists|n: nat|
            valid_before(vol, s, n) && #[trigger] s[set_start(s, n)] >= 128 && (s[set_start(s, n)] / 64) % 2 == 0 && s[set_start(
                s,
                n,
            )] != 0x85 && x == set_start(s, n) / 32,
        DirectoryError::LoadFileEntryFailed(fe) => exists|n: nat|
            valid_before(vol, s, n) && #[trigger] s[set_start(s, n)] == 0x85 && entry_error_fits(
                fe,
                s.subrange(set_start(s, n), set_start(s, n) + 32),
                (set_start(s, n) / 32) as u64,
                s,
                set_start(s, n) + 32,
            ) && (fe is ReadFailed ==> set_read_fault(
                vol,
                stream.allocation.first_cluster as int,
                stream.no_fat_chain,
                s,
                set_start(s, n) + 32,
                s[set_start(s, n) + 1] as int,
                fe->ReadFailed_0,
            )),
        DirectoryError::CreateFileObjectFailed(x, _, _) => exists|n: nat|
            valid_before(vol, s, n) && #[trigger] s[set_start(s, n)] == 0x85 && set_verdict(
                s.subrange(set_start(s, n), set_start(s, n) + 32),
                s,
                set_start(s, n) + 32,
            ) == SetVerdict::Valid && file_fault(vol, set_at(s, n)) && x == set_start(s, n) / 32,
        DirectoryError::ReadEntryFailed(re) => exists|n: nat|
            valid_before(vol, s, n) && #[trigger] read_fault(
                vol,
                stream.allocation.first_cluster as int,
                stream.no_fat_chain,
                s.len() as int,
                re,
                set_start(s, n),
                32,
            ),
    }
}

/// Entry set number `m` is a valid File entry set whose file can be made
/// on the volume `vol`.
pub open spec fn valid_set_at<P: DiskPartition>(vol: ExFat<P>, s: Seq<u8>, m: nat) -> bool {
    let q = set_start(s, m);
    &&& file_at(s, m)
    &&& set_verdict(s.subrange(q, q + 32), s, q + 32) == SetVerdict::Valid
    &&& !file_fault(vol, set_at(s, m))
}

/// The directory of the volume `vol` whose allocation is `stream` and
/// whose bytes are `s` is valid: its allocation can be read, valid File
/// entry sets lead up to a record that is not in use, and the partition
/// reliably holds all of these bytes.
pub open spec fn dir_valid<P: DiskPartition>(vol: ExFat<P>, stream: StreamEntry, s: Seq<u8>) -> bool {
    &&& new_outcome(
        vol.spec_params(),
        vol.spec_fat(),
        stream.allocation.first_cluster as int,
        Some(stream.allocation.data_length),
        Some(stream.no_fat_chain),
    ) is None
    &&& exists|end: nat|
        set_start(s, end) + 32 <= s.len() && s[set_start(s, end)] < 128 && valid_before(vol, s, end)
            && #[trigger] alloc_readable(
            vol,
            stream.allocation.first_cluster as int,
            stream.no_fat_chain,
            0,
            set_start(s, end) + 32,
        )
}

/// Entry sets start at nonnegative offsets.
pub proof fn lemma_set_start_nonneg(s: Seq<u8>, n: nat)
    ensures
        0 <= set_start(s, n),
    decreases n,
{
    if n > 0 {
        lemma_set_start_nonneg(s, (n - 1) as nat);
    }
}

/// Entry sets start in order, each after the records of the one before.
pub proof fn lemma_set_start_grows(s: Seq<u8>, n: nat, end: nat)
    requires
        n < end,
    ensures
        0 <= set_start(s, n),
        set_start(s, n) + 32 * (1 + s[set_start(s, n) + 1]) <= set_start(s, end),
    decreases end,
{
    lemma_set_start_nonneg(s, n);
    if n + 1 < end {
        lemma_set_start_grows(s, n, (end - 1) as nat);
        assert(set_start(s, (end - 1) as nat) <= set_start(s, end));
    }
}

/// Listing a valid directory succeeds: no error can come.
pub proof fn lemma_valid_directory<P: DiskPartition>(
    vol: ExFat<P>,
    stream: StreamEntry,
    s: Seq<u8>,
    e: DirectoryError<P::Err>,
)
    requires
        dir_valid(vol, stream, s),
    ensures
        !dir_fault(vol, stream, s, e),
{
    if dir_fault(vol, stream, s, e) {
    let fc = stream.allocation.first_cluster as int;
    let nfc = stream.no_fat_chain;
    let end = choose|end: nat|
        set_start(s, end) + 32 <= s.len() && s[set_start(s, end)] < 128 && valid_before(vol, s, end)
            && #[trigger] alloc_readable(vol, fc, nfc, 0, set_start(s, end) + 32);
    let top = set_start(s, end) + 32;
    match e {
        DirectoryError::NotPrimaryEntry(x, _) => {
            let n = choose|n: nat|
                valid_before(vol, s, n) && #[trigger] s[set_start(s, n)] >= 128 && (s[set_start(s, n)]
                    / 64) % 2 == 1 && x == set_start(s, n) / 32;
            if n < end {
                assert(valid_set_at(vol, s, n));
            } else if n > end {
                assert(valid_set_at(vol, s, end));
            }
        },
        DirectoryError::NotFileEntry(x, _) => {
            let n = choose|n: nat|
                valid_before(vol, s, n) && #[trigger] s[set_start(s, n)] >= 128 && (s[set_start(s, n)]
                    / 64) % 2 == 0 && s[set_start(s, n)] != 0x85 && x == set_start(s, n) / 32;
            if n < end {
                assert(valid_set_at(vol, s, n));
            } else if n > end {
                assert(valid_set_at(vol, s, end));
            }
        },
        DirectoryError::ReadEntryFailed(re) => {
            let n = choose|n: nat|
                valid_before(vol, s, n) && #[trigger] read_fault(
                    vol,
                    fc,
                    nfc,
                    s.len() as int,
                    re,
                    set_start(s, n),
                    32,
                );
            if n < end {
                lemma_set_start_grows(s, n, end);
                lemma_no_read_fault(vol, fc, nfc, s.len() as int, re, set_start(s, n), top);
            } else if n == end {
                if end > 0 {
                    lemma_set_start_grows(s, (end - 1) as nat, end);
                }
                lemma_no_read_fault(vol, fc, nfc, s.len() as int, re, set_start(s, n), top);
            } else {
                assert(valid_set_at(vol, s, end));
            }
        },
        DirectoryError::LoadFileEntryFailed(fe) => {
            let n = choose|n: nat|
                valid_before(vol, s, n) && #[trigger] s[set_start(s, n)] == 0x85 && entry_error_fits(
                    fe,
                    s.subrange(set_start(s, n), set_start(s, n) + 32),
                    (set_start(s, n) / 32) as u64,
                    s,
                    set_start(s, n) + 32,
                ) && (fe is ReadFailed ==> set_read_fault(
                    vol,
                    fc,
                    nfc,
                    s,
                    set_start(s, n) + 32,
                    s[set_start(s, n) + 1] as int,
                    fe->ReadFailed_0,
                ));
            if n < end {
                assert(valid_set_at(vol, s, n));
                if fe is ReadFailed {
                    let q = set_start(s, n);
                    let count = s[q + 1] as int;
                    let j = choose|j: int|
                        1 <= j <= count && first_bad(s, q + 32, 1, j - 1) is None
                            && #[trigger] read_fault(
                            vol,
                            fc,
                            nfc,
                            s.len() as int,
                            fe->ReadFailed_0,
                            q + 32 + 32 * (j - 1),
                            32,
                        );
                    lemma_set_start_grows(s, n, end);
                    lemma_no_read_fault(
                        vol,
                        fc,
                        nfc,
                        s.len() as int,
                        fe->ReadFailed_0,
                        q + 32 + 32 * (j - 1),
                        top,
                    );
                }
            } else if n > end {
                assert(valid_set_at(vol, s, end));
            }
        },
        DirectoryError::CreateFileObjectFailed(x, _, _) => {
            let n = choose|n: nat|
                valid_before(vol, s, n) && #[trigger] s[set_start(s, n)] == 0x85 && set_verdict(
                    s.subrange(set_start(s, n), set_start(s, n) + 32),
                    s,
                    set_start(s, n) + 32,
                ) == SetVerdict::Valid && file_fault(vol, set_at(s, n)) && x == set_start(s, n)
                    / 32;
            if n < end {
                assert(valid_set_at(vol, s, n));
            } else if n > end {
                assert(valid_set_at(vol, s, end));
            }
        },
        _ => {},
    }
}
}

impl<P: DiskPartition> Directory<P> {
    pub closed spec fn spec_exfat(&self) -> ExFat<P> {
        *self.exfat
    }

    pub closed spec fn spec_name(&self) -> Seq<char> {
        self.name@
    }

    pub closed spec fn spec_stream(&self) -> StreamEntry {
        self.stream
    }

    pub closed spec fn spec_timestamps(&self) -> Timestamps {
        self.timestamps
    }

    /// The bytes of the directory's records.
    pub open spec fn records(&self) -> Seq<u8> {
        alloc_stream(
            self.spec_exfat(),
            self.spec_stream().allocation.first_cluster as int,
            self.spec_stream().allocation.data_length as int,
            self.spec_stream().no_fat_chain,
        )
    }

    pub fn new(exfat: Arc<ExFat<P>>, name: String, stream: StreamEntry, timestamps: Timestamps) -> (r:
        Self)
        ensures
            r.spec_exfat() == *exfat,
            r.spec_name() == name@,
            r.spec_stream() == stream,
            r.spec_timestamps() == timestamps,
    {
        Directory { exfat, name, stream, timestamps }
    }

    pub fn name(&self) -> (r: &str)
        ensures
            r@ == self.spec_name(),
    {
        self.name.as_str()
    }

    pub fn timestamps(&self) -> (r: &Timestamps)
        ensures
            *r == self.spec_timestamps(),
    {
        &self.timestamps
    }

    /// Lists the directory: its File entry sets, up to the first record
    /// that is not in use.
    #[verifier::rlimit(60)]
    pub fn open(&self) -> (r: Result<Vec<Item<P>>, DirectoryError<P::Err>>)
        ensures
            r matches Err(DirectoryError::CreateClustersReaderFailed(a, _)) ==> a
                == self.spec_stream().allocation,
            r matches Ok(items) ==> lists(items@, self.records(), self.spec_exfat()),
            r matches Err(e) ==> dir_fault(self.spec_exfat(), self.spec_stream(), self.records(), e),
            new_outcome(
                self.spec_exfat().spec_params(),
                self.spec_exfat().spec_fat(),
                self.spec_stream().allocation.first_cluster as int,
                Some(self.spec_stream().allocation.data_length),
                Some(self.spec_stream().no_fat_chain),
            ) is Some ==> r matches Err(DirectoryError::CreateClustersReaderFailed(..)),
    {
        let alloc = self.stream.allocation();
        let reader = match ClustersReader::new(
            self.exfat.clone(),
            alloc.first_cluster(),
            Some(alloc.data_length()),
            Some(self.stream.no_fat_chain()),
        ) {
            Ok(v) => v,
            Err(e) => return Err(DirectoryError::CreateClustersReaderFailed(*alloc, e)),
        };
        let mut reader = EntriesReader::new(reader);
        let ghost s = reader.stream();
        let mut items: Vec<Item<P>> = Vec::new();
        loop
            invariant_except_break
                reader.position() == set_start(s, items@.len() as nat),
            invariant
                reader.wf(),
                reader.stream() == s,
                s == self.records(),
                valid_before(self.spec_exfat(), s, items@.len() as nat),
                reader.spec_reader().spec_exfat() == self.spec_exfat(),
                reader.spec_reader().spec_first() == self.spec_stream().allocation.first_cluster,
                reader.spec_reader().spec_no_fat_chain() == self.spec_stream().no_fat_chain,
                new_outcome(
                    self.spec_exfat().spec_params(),
                    self.spec_exfat().spec_fat(),
                    self.spec_stream().allocation.first_cluster as int,
                    Some(self.spec_stream().allocation.data_length),
                    Some(self.spec_stream().no_fat_chain),
                ) is None,
                forall|i: int|
                    0 <= i < items@.len() ==> #[trigger] listed(items@, s, i, self.spec_exfat()),
            ensures
                lists(items@, s, self.spec_exfat()),
            decreases s.len() - reader.position(),
        {
            let ghost pos = reader.position();
            let ghost old_items = items@;
            let ghost n0 = items@.len() as nat;
            let entry = match reader.read() {
                Ok(v) => v,
                Err(e) => {
                    proof {
                        assert(pos == set_start(s, n0));
                    }
                    return Err(DirectoryError::ReadEntryFailed(e));
                },
            };
            let ty = entry.ty();
            assert(s[pos] == entry@[0]);
            assert(entry@ == s.subrange(pos, pos + 32));
            let ghost n = items@.len() as nat;
            assert(s[set_start(s, n)] == entry@[0]);
            assert(entry.spec_index() == set_start(s, n) / 32);
            if !ty.is_regular() {
                assert(lists(items@, s, self.spec_exfat()));
                break;
            } else if ty.type_category() != PRIMARY {
                return Err(DirectoryError::NotPrimaryEntry(entry.index(), entry.cluster()));
            } else if ty.type_importance() != CRITICAL || ty.type_code() != 5 {
                return Err(DirectoryError::NotFileEntry(entry.index(), entry.cluster()));
            }
            let file = match FileEntry::load(&entry, &mut reader) {
                Ok(v) => v,
                Err(e) => return Err(DirectoryError::LoadFileEntryFailed(e)),
            };
            proof {
                reader.lemma_wf();
            }
            let ghost set = entry@ + s.subrange(pos + 32, reader.position());
            assert(set =~= set_at(s, items@.len() as nat));
            let item = match item_from_entry(&self.exfat, file, Ghost(set)) {
                Ok(v) => v,
                Err(e) => {
                    return Err(
                        DirectoryError::CreateFileObjectFailed(entry.index(), entry.cluster(), e),
                    );
                },
            };
            let ghost n = items@.len();
            assert(valid_set_at(self.spec_exfat(), s, n as nat));
            assert(valid_before(self.spec_exfat(), s, (n + 1) as nat)) by {
                assert forall|m: nat| m < n + 1 implies #[trigger] valid_set_at(
                    self.spec_exfat(),
                    s,
                    m,
                ) by {
                    if m < n {
                        assert(valid_before(self.spec_exfat(), s, n as nat));
                    }
                }
            }
            items.push(item);
            assert(forall|i: int| 0 <= i < n ==> items@[i] == old_items[i]);
            assert(forall|i: int|
                0 <= i < n ==> listed(old_items, s, i, self.spec_exfat()) ==> #[trigger] listed(
                    items@,
                    s,
                    i,
                    self.spec_exfat(),
                ));
            assert(listed(items@, s, n as int, self.spec_exfat()));
        }
        Ok(items)
    }
}

} // verus!

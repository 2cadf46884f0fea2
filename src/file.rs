use crate::cluster::{
    alloc_clusters, alloc_stream, min, new_outcome, ClustersReader, NewError as ClustersNewError,
    ReadError,
};
use crate::disk::DiskPartition;
use crate::entries::StreamEntry;
use crate::timestamp::Timestamps;
use crate::ExFat;
use std::sync::Arc;
use vstd::prelude::*;

verus! {

/// Where a seek moves to.
#[derive(Clone, Copy, Debug, PartialEq, Eq, Structural)]
pub enum SeekFrom {
    Start(u64),
    End(i64),
    Current(i64),
}

/// Why a seek failed.
#[derive(Clone, Copy, Debug, PartialEq, Eq, Structural)]
pub enum SeekError {
    /// The target lies before the start of the file.
    InvalidInput,
}

/// The offset that a seek to `pos` reaches from `offset` in a stream of
/// `len` bytes: it stops at the end, and fails before the start.
pub open spec fn seek_target(pos: SeekFrom, offset: int, len: int) -> Option<int> {
    match pos {
        SeekFrom::Start(v) => Some(min(v as int, len)),
        SeekFrom::End(v) => if v >= 0 {
            Some(len)
        } else if len + v >= 0 {
            Some(len + v)
        } else {
            None
        },
        SeekFrom::Current(v) => if v >= 0 {
            Some(min(offset + v, len))
        } else if offset + v >= 0 {
            Some(offset + v)
        } else {
            None
        },
    }
}

/// Seeking to the start reaches 0, seeking to the end reaches the length,
/// and seeking by 0 from the current offset stays there.
pub proof fn lemma_seek_ends(offset: int, len: int)
    requires
        0 <= offset <= len,
    ensures
        seek_target(SeekFrom::Start(0), offset, len) == Some(0int),
        seek_target(SeekFrom::End(0), offset, len) == Some(len),
        seek_target(SeekFrom::Current(0), offset, len) == Some(offset),
{
}

/// A seek to `Start(x)` leaves the offset at `x`, or at the length where
/// `x` lies past it.
pub proof fn lemma_seek_start_position(x: u64, offset: int, len: int)
    requires
        0 <= offset <= len,
    ensures
        seek_target(SeekFrom::Start(x), offset, len) == Some(min(x as int, len)),
{
}

/// The bytes between consecutive cuts of `s`, from cut `k` on, joined.
pub open spec fn pieces(s: Seq<u8>, cuts: Seq<int>, k: nat) -> Seq<u8>
    decreases cuts.len() - k,
{
    if k + 1 >= cuts.len() {
        seq![]
    } else {
        s.subrange(cuts[k as int], cuts[k + 1int]) + pieces(s, cuts, k + 1)
    }
}

/// Reads that start at offset 0 and go on from where the last one ended,
/// up to the end, give the whole stream when joined: for any cuts
/// `0 = c0 <= c1 <= ... <= cn = len`, the slices `[c(i), c(i+1))` joined are
/// the stream.
pub proof fn lemma_pieces_join(s: Seq<u8>, cuts: Seq<int>)
    requires
        cuts.len() >= 1,
        cuts[0] == 0,
        cuts.last() == s.len(),
        forall|i: int| 0 <= i < cuts.len() - 1 ==> #[trigger] cuts[i] <= cuts[i + 1],
    ensures
        pieces(s, cuts, 0) == s,
{
    lemma_pieces_from(s, cuts, 0);
    assert(s.subrange(0, s.len() as int) =~= s);
}

proof fn lemma_pieces_from(s: Seq<u8>, cuts: Seq<int>, k: nat)
    requires
        k < cuts.len(),
        0 <= cuts[k as int],
        cuts.last() == s.len(),
        forall|i: int| 0 <= i < cuts.len() - 1 ==> #[trigger] cuts[i] <= cuts[i + 1],
    ensures
        pieces(s, cuts, k) == s.subrange(cuts[k as int], s.len() as int),
    decreases cuts.len() - k,
{
    if k + 1 >= cuts.len() {
        assert(s.subrange(cuts[k as int], s.len() as int) =~= seq![]);
    } else {
        lemma_cuts_bounded(cuts, (k + 1) as nat);
        lemma_pieces_from(s, cuts, k + 1);
        assert(s.subrange(cuts[k as int], cuts[k + 1int]) + s.subrange(cuts[k + 1int], s.len() as int)
            =~= s.subrange(cuts[k as int], s.len() as int));
    }
}

proof fn lemma_cuts_bounded(cuts: Seq<int>, k: nat)
    requires
        k < cuts.len(),
        forall|i: int| 0 <= i < cuts.len() - 1 ==> #[trigger] cuts[i] <= cuts[i + 1],
    ensures
        cuts[k as int] <= cuts.last(),
    decreases cuts.len() - k,
{
    if k + 1 < cuts.len() {
        lemma_cuts_bounded(cuts, k + 1);
    }
}

/// The bytes of the reader of a file.
enum Reader<P: DiskPartition> {
    Cluster(ClustersReader<P>),
    Empty,
}

/// A file of the volume, with its own offset for reading.
pub struct File<P: DiskPartition> {
    name: String,
    len: u64,
    data_length: u64,
    reader: Reader<P>,
    timestamps: Timestamps,
}

/// Why a [`File`] could not be created.
#[derive(Debug, PartialEq, Eq, Structural)]
pub enum NewError {
    /// The first cluster and the valid data length of the allocation.
    CreateClustersReaderFailed(usize, u64, ClustersNewError),
    /// The valid data length exceeds the data length.
    InvalidValidDataLength,
}

impl<P: DiskPartition> File<P> {
    pub closed spec fn wf(&self) -> bool {
        match self.reader {
            Reader::Cluster(r) => {
                &&& r.wf()
                &&& r.spec_data_length() == self.len
                &&& self.len <= self.data_length
                &&& self.data_length <= r.chain_len() * r.cluster_size()
            },
            Reader::Empty => self.len == 0 && self.data_length == 0,
        }
    }

    /// The volume that a file with clusters reads from.
    pub closed spec fn spec_volume(&self) -> Option<ExFat<P>> {
        match self.reader {
            Reader::Cluster(r) => Some(r.spec_exfat()),
            Reader::Empty => None,
        }
    }

    /// Bytes `from` to `to` of the file can be read, from a reliable
    /// partition; a file without clusters reads nothing.
    pub closed spec fn readable(&self, from: int, to: int) -> bool {
        match self.reader {
            Reader::Cluster(r) => r.readable(from, to),
            Reader::Empty => true,
        }
    }

    /// Whether the file has no clusters.
    pub closed spec fn has_no_clusters(&self) -> bool {
        self.reader is Empty
    }

    /// The bytes that the file presents.
    pub closed spec fn content(&self) -> Seq<u8> {
        match self.reader {
            Reader::Cluster(r) => r.stream(),
            Reader::Empty => seq![],
        }
    }

    /// The offset of the next read.
    pub closed spec fn position(&self) -> int {
        match self.reader {
            Reader::Cluster(r) => r.position(),
            Reader::Empty => 0,
        }
    }

    pub closed spec fn spec_len(&self) -> u64 {
        self.len
    }

    pub closed spec fn spec_data_length(&self) -> u64 {
        self.data_length
    }

    pub closed spec fn spec_name(&self) -> Seq<char> {
        self.name@
    }

    pub closed spec fn spec_timestamps(&self) -> Timestamps {
        self.timestamps
    }

    /// The number of clusters allocated to the file, and their size.
    pub closed spec fn allocated_clusters(&self) -> int {
        match self.reader {
            Reader::Cluster(r) => r.chain_len(),
            Reader::Empty => 0,
        }
    }

    pub closed spec fn cluster_size(&self) -> int {
        match self.reader {
            Reader::Cluster(r) => r.cluster_size(),
            Reader::Empty => 0,
        }
    }

    /// `self` is `o` but for its offset: same name, lengths, timestamps,
    /// clusters and bytes.
    pub open spec fn same_file(&self, o: &Self) -> bool {
        &&& self.spec_name() == o.spec_name()
        &&& self.spec_len() == o.spec_len()
        &&& self.spec_data_length() == o.spec_data_length()
        &&& self.spec_timestamps() == o.spec_timestamps()
        &&& self.allocated_clusters() == o.allocated_clusters()
        &&& self.cluster_size() == o.cluster_size()
        &&& self.has_no_clusters() == o.has_no_clusters()
        &&& self.content() == o.content()
        &&& self.spec_volume() == o.spec_volume()
    }

    /// The number of bytes that a read of at most `len` bytes returns: up
    /// to the end of the cluster and of the file.
    pub open spec fn read_len(&self, len: int) -> int {
        if self.has_no_clusters() {
            0
        } else {
            min(
                len,
                min(
                    self.cluster_size() - self.position() % self.cluster_size(),
                    self.content().len() - self.position(),
                ),
            )
        }
    }

    /// The offset that a seek to `pos` reaches; none where it fails.
    pub open spec fn seek_result(&self, pos: SeekFrom) -> Option<int> {
        if self.has_no_clusters() {
            Some(0)
        } else {
            seek_target(pos, self.position(), self.content().len() as int)
        }
    }

    /// A file with clusters presents `len` bytes; its valid data length
    /// lies within its data length, which lies within its clusters.
    pub proof fn lemma_lengths(&self)
        requires
            self.wf(),
        ensures
            0 <= self.position() <= self.content().len(),
            !self.has_no_clusters() ==> {
                &&& self.content().len() == self.spec_len()
                &&& self.spec_len() <= self.spec_data_length()
                &&& self.spec_data_length() <= self.allocated_clusters() * self.cluster_size()
            },
            self.has_no_clusters() ==> self.content().len() == 0 && self.spec_len() == 0
                && self.spec_data_length() == 0,
    {
        match self.reader {
            Reader::Cluster(r) => r.lemma_wf(),
            Reader::Empty => {},
        }
    }

    /// Reading a file with clusters from its start to its end yields its
    /// length in bytes.
    pub proof fn lemma_full_read_length(&self, v: Seq<u8>)
        requires
            self.wf(),
            !self.has_no_clusters(),
            v == self.content().subrange(0, self.content().len() as int),
        ensures
            v.len() == self.spec_len(),
    {
        self.lemma_lengths();
    }

    /// A file for a Stream Extension entry. Without a first cluster the file
    /// has no bytes; otherwise it presents the first `valid_data_length`
    /// bytes of its `data_length` bytes.
    pub fn new(exfat: Arc<ExFat<P>>, name: String, stream: StreamEntry, timestamps: Timestamps) -> (r:
        Result<Self, NewError>)
        ensures
            stream.valid_data_length > stream.allocation.data_length ==> r == Err::<
                Self,
                NewError,
            >(NewError::InvalidValidDataLength),
            r matches Ok(f) ==> {
                &&& f.wf()
                &&& f.position() == 0
                &&& f.spec_name() == name@
                &&& f.spec_len() == stream.valid_data_length
                &&& f.spec_data_length() == stream.allocation.data_length
                &&& f.spec_timestamps() == timestamps
                &&& f.has_no_clusters() == (stream.allocation.first_cluster == 0)
                &&& f.has_no_clusters() == (f.spec_volume() is None)
                &&& f.spec_volume() matches Some(v) ==> f.content() == alloc_stream(
                    v,
                    stream.allocation.first_cluster as int,
                    stream.valid_data_length as int,
                    stream.no_fat_chain,
                )
            },
            r matches Err(NewError::CreateClustersReaderFailed(c, l, _)) ==> c
                == stream.allocation.first_cluster && l == stream.valid_data_length,
            ({
                let fc = stream.allocation.first_cluster;
                let vdl = stream.valid_data_length;
                let dl = stream.allocation.data_length;
                let nfc = stream.no_fat_chain;
                vdl <= dl ==> if fc == 0 {
                    if dl == 0 {
                        r is Ok
                    } else {
                        r == Err::<Self, NewError>(
                            NewError::CreateClustersReaderFailed(
                                0,
                                vdl,
                                ClustersNewError::InvalidFirstCluster,
                            ),
                        )
                    }
                } else {
                    match new_outcome(
                        exfat.spec_params(),
                        exfat.spec_fat(),
                        fc as int,
                        Some(dl),
                        Some(nfc),
                    ) {
                        Some(e) => r == Err::<Self, NewError>(
                            NewError::CreateClustersReaderFailed(fc, vdl, e),
                        ),
                        None => r matches Ok(f) && f.spec_volume() == Some(*exfat) && f.content()
                            == alloc_stream(
                            *exfat,
                            fc as int,
                            vdl as int,
                            nfc,
                        ) && f.allocated_clusters() == alloc_clusters(
                            exfat.spec_params(),
                            exfat.spec_fat(),
                            fc as int,
                            dl as int,
                            nfc,
                        ) && f.cluster_size() == exfat.spec_params().spec_cluster_size(),
                    }
                }
            }),
    {
        let first_cluster = stream.allocation.first_cluster;
        let len = stream.valid_data_length;
        let data_length = stream.allocation.data_length;
        if len > data_length {
            return Err(NewError::InvalidValidDataLength);
        }
        let reader = if first_cluster == 0 {
            // A file without clusters holds no data.
            if data_length != 0 {
                return Err(
                    NewError::CreateClustersReaderFailed(
                        0,
                        len,
                        ClustersNewError::InvalidFirstCluster,
                    ),
                );
            }
            Reader::Empty
        } else {

            let mut reader = match ClustersReader::new(
                exfat,
                first_cluster,
                Some(data_length),
                Some(stream.no_fat_chain),
            ) {
                Ok(v) => v,
                Err(e) => return Err(NewError::CreateClustersReaderFailed(first_cluster, len, e)),
            };
            proof {
                reader.lemma_wf();
            }
            reader.truncate(len);
            assert(reader.stream() =~= alloc_stream(
                reader.spec_exfat(),
                first_cluster as int,
                len as int,
                stream.no_fat_chain,
            ));
            Reader::Cluster(reader)
        };
        Ok(File { name, len, data_length, reader, timestamps })
    }

    pub fn name(&self) -> (r: &str)
        ensures
            r@ == self.spec_name(),
    {
        self.name.as_str()
    }

    pub fn is_empty(&self) -> (r: bool)
        ensures
            r == (self.spec_len() == 0),
    {
        self.len == 0
    }

    /// The valid data length.
    pub fn len(&self) -> (r: u64)
        ensures
            r == self.spec_len(),
    {
        self.len
    }

    pub fn timestamps(&self) -> (r: &Timestamps)
        ensures
            *r == self.spec_timestamps(),
    {
        &self.timestamps
    }

    /// Moves the offset; past the end it stops at the end.
    pub fn seek(&mut self, pos: SeekFrom) -> (r: Result<u64, SeekError>)
        requires
            old(self).wf(),
        ensures
            final(self).wf(),
            final(self).same_file(old(self)),
            match old(self).seek_result(pos) {
                Some(t) => r == Ok::<u64, SeekError>(t as u64) && final(self).position() == t,
                None => r == Err::<u64, SeekError>(SeekError::InvalidInput) && final(self).position()
                    == old(self).position(),
            },
    {
        let r = match &mut self.reader {
            Reader::Cluster(r) => r,
            Reader::Empty => return Ok(0),
        };
        proof {
            r.lemma_wf();
        }
        let len = r.data_length();
        let cur = r.stream_position();
        let target = match pos {
            SeekFrom::Start(v) => if v <= len {
                v
            } else {
                len
            },
            SeekFrom::End(v) => {
                if v >= 0 {
                    len
                } else {
                    let back = (-(v as i128)) as u64;
                    if back <= len {
                        len - back
                    } else {
                        return Err(SeekError::InvalidInput);
                    }
                }
            },
            SeekFrom::Current(v) => {
                if v >= 0 {
                    let forward = cur.saturating_add(v as u64);
                    if forward <= len {
                        forward
                    } else {
                        len
                    }
                } else {
                    let back = (-(v as i128)) as u64;
                    if back <= cur {
                        cur - back
                    } else {
                        return Err(SeekError::InvalidInput);
                    }
                }
            },
        };
        r.seek(target);
        Ok(target)
    }

    /// Moves the offset to the start: the same as a seek to `Start(0)`.
    pub fn rewind(&mut self)
        requires
            old(self).wf(),
        ensures
            final(self).wf(),
            final(self).same_file(old(self)),
            final(self).position() == 0,
            old(self).seek_result(SeekFrom::Start(0)) == Some(0int),
    {
        proof {
            self.lemma_lengths();
        }
        match &mut self.reader {
            Reader::Cluster(r) => r.rewind(),
            Reader::Empty => {},
        }
    }

    pub fn stream_position(&self) -> (r: u64)
        ensures
            r == self.position(),
    {
        match &self.reader {
            Reader::Cluster(r) => r.stream_position(),
            Reader::Empty => 0,
        }
    }

    /// Reads at most `len` bytes at the offset: the next bytes of the file,
    /// within one cluster. Nothing comes back at the end.
    pub fn read(&mut self, len: usize) -> (r: Result<Vec<u8>, ReadError<P::Err>>)
        requires
            old(self).wf(),
        ensures
            final(self).wf(),
            final(self).same_file(old(self)),
            old(self).position() <= final(self).position() <= final(self).content().len(),
            r is Err ==> final(self).position() == old(self).position(),
            r matches Ok(v) ==> v@ == old(self).content().subrange(
                old(self).position(),
                final(self).position(),
            ),
            r matches Ok(v) ==> (v@.len() == 0 <==> (len == 0 || old(self).position()
                == old(self).content().len())),
            r matches Ok(v) ==> v@.len() == old(self).read_len(len as int),
            len == 0 || old(self).position() == old(self).content().len() ==> (r matches Ok(v)
                && v@.len() == 0),
            !(r matches Err(ReadError::UnexpectedEof)),
            r is Err ==> !old(self).readable(
                old(self).position(),
                old(self).position() + old(self).read_len(len as int),
            ),
            old(self).readable(
                old(self).position(),
                old(self).position() + old(self).read_len(len as int),
            ) ==> r is Ok,
    {
        proof {
            self.lemma_lengths();
        }
        match &mut self.reader {
            Reader::Cluster(r) => r.read(len),
            Reader::Empty => Ok(Vec::new()),
        }
    }

    /// Reads from the offset to the end of the file.
    pub fn read_to_end(&mut self) -> (r: Result<Vec<u8>, ReadError<P::Err>>)
        requires
            old(self).wf(),
        ensures
            final(self).wf(),
            final(self).same_file(old(self)),
            r matches Ok(v) ==> {
                &&& v@ == old(self).content().subrange(
                    old(self).position(),
                    old(self).content().len() as int,
                )
                &&& final(self).position() == old(self).content().len()
            },
            old(self).position() == old(self).content().len() ==> (r matches Ok(v) && v@.len()
                == 0),
            !(r matches Err(ReadError::UnexpectedEof)),
            r is Err ==> !old(self).readable(old(self).position(), old(self).content().len() as int),
            old(self).readable(old(self).position(), old(self).content().len() as int) ==> r is Ok,
    {
        match &mut self.reader {
            Reader::Cluster(r) => r.read_to_end(),
            Reader::Empty => Ok(Vec::new()),
        }
    }
}

} // verus!

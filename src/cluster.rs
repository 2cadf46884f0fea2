use crate::disk::{read_exact, DiskPartition};
use crate::fat::fat_chain;
use crate::param::Params;
use crate::ExFat;
use std::sync::Arc;
use vstd::arithmetic::div_mod::{
    lemma_fundamental_div_mod, lemma_fundamental_div_mod_converse, lemma_multiply_divide_lt,
};
use vstd::prelude::*;

verus! {

/// A seekable stream of the bytes in a cluster chain.
pub struct ClustersReader<P: DiskPartition> {
    exfat: Arc<ExFat<P>>,
    /// The chain, when it comes from the FAT.
    chain: Vec<usize>,
    /// Whether the clusters are contiguous from `first_cluster` instead.
    no_fat_chain: bool,
    first_cluster: usize,
    /// The number of contiguous clusters.
    extent: u64,
    data_length: u64,
    offset: u64,
}

/// Why a [`ClustersReader`] could not be created.
#[derive(Debug, PartialEq, Eq, Structural)]
pub enum NewError {
    InvalidFirstCluster,
    InvalidDataLength,
}

/// Why a read from a [`ClustersReader`] failed.
#[derive(Debug)]
pub enum ReadError<E> {
    /// The cluster lies outside the cluster heap.
    ClusterUnavailable(usize),
    /// The partition failed to read at the given offset.
    ReadFailed(u64, E),
    /// The stream ended before the requested bytes.
    UnexpectedEof,
}

/// The number of clusters that `len` bytes take.
pub open spec fn clusters_for(len: int, cluster_size: int) -> int {
    if len % cluster_size == 0 {
        len / cluster_size
    } else {
        len / cluster_size + 1
    }
}

/// The smaller of two integers.
pub open spec fn min(a: int, b: int) -> int {
    if a <= b {
        a
    } else {
        b
    }
}

/// Cluster number `i` of an allocation that starts at `first`: contiguous,
/// or along the chain of the FAT `fat`.
pub open spec fn chain_cluster(fat: Seq<u32>, first: int, no_fat_chain: bool, i: int) -> int {
    if no_fat_chain {
        first + i
    } else {
        fat_chain(fat, first, fat.len())[i] as int
    }
}

/// The first `len` bytes of an allocation that starts at `first`, on a
/// partition that holds `content`, with geometry `params` and FAT `fat`.
pub open spec fn chain_stream(
    content: Seq<u8>,
    params: Params,
    fat: Seq<u32>,
    first: int,
    len: int,
    no_fat_chain: bool,
) -> Seq<u8> {
    let cs = params.spec_cluster_size();
    Seq::new(
        len as nat,
        |i: int|
            content[params.spec_cluster_offset(
                chain_cluster(fat, first, no_fat_chain, i / cs),
            )->Some_0 + i % cs],
    )
}

/// Why a reader cannot be made for the allocation that starts at `first`,
/// with geometry `params` and FAT `fat`; none where it can.
pub open spec fn new_outcome(
    params: Params,
    fat: Seq<u32>,
    first: int,
    data_length: Option<u64>,
    no_fat_chain: Option<bool>,
) -> Option<NewError> {
    let cs = params.spec_cluster_size();
    let chain = fat_chain(fat, first, fat.len());
    if first < 2 {
        Some(NewError::InvalidFirstCluster)
    } else if no_fat_chain == Some(true) {
        match data_length {
            Some(len) => if len > 0 && first + clusters_for(len as int, cs) <= usize::MAX {
                None
            } else {
                Some(NewError::InvalidDataLength)
            },
            None => Some(NewError::InvalidDataLength),
        }
    } else if chain.len() == 0 {
        Some(NewError::InvalidFirstCluster)
    } else {
        match data_length {
            Some(len) => if len > cs * chain.len() {
                Some(NewError::InvalidDataLength)
            } else {
                None
            },
            None => None,
        }
    }
}

/// The number of clusters of the allocation that starts at `first`.
pub open spec fn alloc_clusters(
    params: Params,
    fat: Seq<u32>,
    first: int,
    data_length: int,
    no_fat_chain: bool,
) -> int {
    if no_fat_chain {
        clusters_for(data_length, params.spec_cluster_size())
    } else {
        fat_chain(fat, first, fat.len()).len() as int
    }
}

/// Byte `i` of the allocation of the volume `vol` that starts at `first`
/// can be read: its cluster lies in the heap and its offset within the
/// partition.
pub open spec fn alloc_byte_readable<P: DiskPartition>(
    vol: ExFat<P>,
    first: int,
    no_fat_chain: bool,
    i: int,
) -> bool {
    let cs = vol.spec_params().spec_cluster_size();
    match vol.spec_params().spec_cluster_offset(
        chain_cluster(vol.spec_fat(), first, no_fat_chain, i / cs),
    ) {
        Some(base) => base + i % cs < u64::MAX && base + i % cs < vol.content().len(),
        None => false,
    }
}

/// Bytes `from` to `to` of the allocation can be read, from a reliable
/// partition.
pub open spec fn alloc_readable<P: DiskPartition>(
    vol: ExFat<P>,
    first: int,
    no_fat_chain: bool,
    from: int,
    to: int,
) -> bool {
    &&& vol.reliable()
    &&& forall|i: int| from <= i < to ==> #[trigger] alloc_byte_readable(vol, first, no_fat_chain, i)
}

/// What causes the read error `e` when `n` bytes are read from `from` of
/// the first `len` bytes of that allocation: the stream ends first, a
/// cluster lies outside the heap, or the bytes cannot be read.
pub closed spec fn read_fault<P: DiskPartition>(
    vol: ExFat<P>,
    first: int,
    no_fat_chain: bool,
    len: int,
    e: ReadError<P::Err>,
    from: int,
    n: int,
) -> bool {
    let cs = vol.spec_params().spec_cluster_size();
    match e {
        ReadError::UnexpectedEof => from + n > len,
        ReadError::ClusterUnavailable(c) => exists|i: int|
            from <= i < from + n && i < len && !#[trigger] alloc_byte_readable(
                vol,
                first,
                no_fat_chain,
                i,
            ) && c == chain_cluster(vol.spec_fat(), first, no_fat_chain, i / cs),
        ReadError::ReadFailed(..) => !alloc_readable(vol, first, no_fat_chain, from, min(from + n, len)),
    }
}

/// A read within readable bytes, and within the stream, does not fail.
pub proof fn lemma_no_read_fault<P: DiskPartition>(
    vol: ExFat<P>,
    first: int,
    no_fat_chain: bool,
    len: int,
    e: ReadError<P::Err>,
    from: int,
    to: int,
)
    requires
        alloc_readable(vol, first, no_fat_chain, 0, to),
        0 <= from,
        from + 32 <= to <= len,
    ensures
        !read_fault(vol, first, no_fat_chain, len, e, from, 32),
{
    if read_fault(vol, first, no_fat_chain, len, e, from, 32) {
        match e {
        ReadError::ClusterUnavailable(c) => {
            let cs = vol.spec_params().spec_cluster_size();
            let i = choose|i: int|
                from <= i < from + 32 && i < len && !#[trigger] alloc_byte_readable(
                    vol,
                    first,
                    no_fat_chain,
                    i,
                ) && c == chain_cluster(vol.spec_fat(), first, no_fat_chain, i / cs);
            assert(alloc_byte_readable(vol, first, no_fat_chain, i));
        },
        ReadError::ReadFailed(..) => {
            assert forall|i: int| from <= i < min(from + 32, len) implies #[trigger] alloc_byte_readable(
                vol,
                first,
                no_fat_chain,
                i,
            ) by {}
        },
        _ => {},
    }
    }
}

/// The stream ends before `n` bytes from `from` exactly when the read
/// runs past its `len` bytes.
pub proof fn lemma_read_fault_eof<P: DiskPartition>(
    vol: ExFat<P>,
    first: int,
    no_fat_chain: bool,
    len: int,
    from: int,
    n: int,
)
    ensures
        read_fault(vol, first, no_fat_chain, len, ReadError::<P::Err>::UnexpectedEof, from, n) == (
        from + n > len),
{
}

/// The first `len` bytes of an allocation of the volume `exfat`.
pub open spec fn alloc_stream<P: DiskPartition>(
    exfat: ExFat<P>,
    first: int,
    len: int,
    no_fat_chain: bool,
) -> Seq<u8> {
    chain_stream(exfat.content(), exfat.spec_params(), exfat.spec_fat(), first, len, no_fat_chain)
}

impl<P: DiskPartition> ClustersReader<P> {
    pub closed spec fn spec_exfat(&self) -> ExFat<P> {
        *self.exfat
    }

    pub closed spec fn spec_data_length(&self) -> int {
        self.data_length as int
    }

    pub closed spec fn position(&self) -> int {
        self.offset as int
    }

    pub open spec fn cluster_size(&self) -> int {
        self.spec_exfat().spec_params().spec_cluster_size()
    }

    /// The number of clusters of the stream.
    pub closed spec fn chain_len(&self) -> int {
        if self.no_fat_chain {
            self.extent as int
        } else {
            self.chain@.len() as int
        }
    }

    /// Cluster number `i` of the stream.
    pub closed spec fn cluster_at(&self, i: int) -> int {
        if self.no_fat_chain {
            self.first_cluster + i
        } else {
            self.chain@[i] as int
        }
    }

    /// The partition offset of byte `pos` of the stream, where its cluster
    /// lies in the heap.
    pub open spec fn byte_offset(&self, pos: int) -> Option<int> {
        match self.spec_exfat().spec_params().spec_cluster_offset(
            self.cluster_at(pos / self.cluster_size()),
        ) {
            Some(base) => Some(base + pos % self.cluster_size()),
            None => None,
        }
    }

    /// Byte `pos` of the stream can be read: its cluster lies in the heap
    /// and its offset lies within the partition.
    pub open spec fn byte_readable(&self, pos: int) -> bool {
        self.byte_offset(pos) matches Some(o) && o < u64::MAX && o
            < self.spec_exfat().content().len()
    }

    /// Bytes `from` to `to` of the stream can be read, from a reliable
    /// partition.
    pub open spec fn readable(&self, from: int, to: int) -> bool {
        &&& self.spec_exfat().reliable()
        &&& forall|i: int| from <= i < to ==> #[trigger] self.byte_readable(i)
    }

    /// `self` reads the same clusters of the same volume as `o`, whatever
    /// the offsets.
    pub open spec fn same_layout(&self, o: &Self) -> bool {
        &&& self.spec_exfat() == o.spec_exfat()
        &&& self.spec_first() == o.spec_first()
        &&& self.spec_no_fat_chain() == o.spec_no_fat_chain()
        &&& self.spec_data_length() == o.spec_data_length()
        &&& forall|i: int| #[trigger] self.cluster_at(i) == o.cluster_at(i)
    }

    /// Readers of the same layout can read the same bytes.
    pub proof fn lemma_same_layout(&self, o: &Self)
        requires
            self.same_layout(o),
        ensures
            forall|i: int| #[trigger] self.byte_readable(i) == o.byte_readable(i),
            forall|from: int, to: int| #[trigger] self.readable(from, to) == o.readable(from, to),
            self.stream() == o.stream(),
    {
        assert forall|i: int| #[trigger] self.byte_readable(i) == o.byte_readable(i) by {
            assert(self.cluster_at(i / self.cluster_size()) == o.cluster_at(i / o.cluster_size()));
        }
        assert forall|from: int, to: int| #[trigger] self.readable(from, to) == o.readable(
            from,
            to,
        ) by {
            if self.readable(from, to) {
                assert forall|i: int| from <= i < to implies #[trigger] o.byte_readable(i) by {
                    assert(self.byte_readable(i));
                }
            }
            if o.readable(from, to) {
                assert forall|i: int| from <= i < to implies #[trigger] self.byte_readable(i) by {
                    assert(o.byte_readable(i));
                }
            }
        }
        assert(self.stream() =~= o.stream()) by {
            assert forall|i: int| 0 <= i < self.stream().len() implies self.stream()[i]
                == o.stream()[i] by {
                assert(self.cluster_at(i / self.cluster_size()) == o.cluster_at(i / o.cluster_size()));
            }
        }
    }

    /// The bytes of the stream.
    pub open spec fn stream(&self) -> Seq<u8> {
        Seq::new(
            self.spec_data_length() as nat,
            |i: int|
                self.spec_exfat().content()[self.spec_exfat().spec_params().spec_cluster_offset(
                    self.cluster_at(i / self.cluster_size()),
                )->Some_0 + i % self.cluster_size()],
        )
    }

    pub closed spec fn wf(&self) -> bool {
        &&& self.exfat.spec_params().wf()
        &&& self.exfat.spec_fat().len() == self.exfat.spec_params().cluster_count + 2
        &&& self.offset <= self.data_length
        &&& self.data_length <= self.chain_len() * self.cluster_size()
        &&& self.no_fat_chain ==> self.first_cluster + self.chain_len() <= usize::MAX
        &&& self.chain@.len() <= usize::MAX
        &&& !self.no_fat_chain ==> forall|i: int|
            0 <= i < self.chain@.len() ==> 2 <= #[trigger] self.chain@[i]
                <= self.exfat.spec_params().cluster_count + 1
        &&& !self.no_fat_chain ==> self.chain@ == fat_chain(
            self.exfat.spec_fat(),
            self.first_cluster as int,
            self.exfat.spec_fat().len(),
        )
    }

    /// The first cluster of the allocation.
    pub closed spec fn spec_first(&self) -> int {
        self.first_cluster as int
    }

    /// Whether the clusters are contiguous, not along the FAT.
    pub closed spec fn spec_no_fat_chain(&self) -> bool {
        self.no_fat_chain
    }

    /// The facts of a well-formed reader that its users need.
    pub proof fn lemma_wf(&self)
        requires
            self.wf(),
        ensures
            0 <= self.position() <= self.spec_data_length(),
            self.spec_data_length() <= u64::MAX,
            self.spec_data_length() <= self.chain_len() * self.cluster_size(),
            512 <= self.cluster_size() <= crate::param::MAX_CLUSTER_SIZE,
            self.stream().len() == self.spec_data_length(),
            forall|k: int|
                #[trigger] self.cluster_at(k) == chain_cluster(
                    self.spec_exfat().spec_fat(),
                    self.spec_first(),
                    self.spec_no_fat_chain(),
                    k,
                ),
            forall|i: int|
                #[trigger] self.byte_readable(i) == alloc_byte_readable(
                    self.spec_exfat(),
                    self.spec_first(),
                    self.spec_no_fat_chain(),
                    i,
                ),
    {
        vstd::arithmetic::mul::lemma_mul_increases(
            self.spec_exfat().spec_params().sectors_per_cluster as int,
            self.spec_exfat().spec_params().bytes_per_sector as int,
        );
    }

    /// Opens the stream of the allocation that starts at `first_cluster`.
    /// With `no_fat_chain` the clusters are contiguous and `data_length`
    /// is required; otherwise they are the FAT chain, and the length is
    /// `data_length` or, without it, the whole chain.
    pub fn new(
        exfat: Arc<ExFat<P>>,
        first_cluster: usize,
        data_length: Option<u64>,
        no_fat_chain: Option<bool>,
    ) -> (r: Result<Self, NewError>)
        ensures
            ({
                let cs = exfat.spec_params().spec_cluster_size();
                let chain = fat_chain(exfat.spec_fat(), first_cluster as int, exfat.spec_fat().len());
                if first_cluster < 2 {
                    r == Err::<Self, NewError>(NewError::InvalidFirstCluster)
                } else if no_fat_chain == Some(true) {
                    match data_length {
                        Some(len) if len > 0 => if first_cluster + clusters_for(len as int, cs)
                            > usize::MAX {
                            r == Err::<Self, NewError>(NewError::InvalidDataLength)
                        } else {
                            r matches Ok(s) && s.spec_data_length() == len && s.chain_len()
                                == clusters_for(len as int, cs) && forall|i: int|
                                #[trigger] s.cluster_at(i) == first_cluster + i
                        },
                        _ => r == Err::<Self, NewError>(NewError::InvalidDataLength),
                    }
                } else if chain.len() == 0 {
                    r == Err::<Self, NewError>(NewError::InvalidFirstCluster)
                } else {
                    match data_length {
                        Some(len) => if len > cs * chain.len() {
                            r == Err::<Self, NewError>(NewError::InvalidDataLength)
                        } else {
                            r matches Ok(s) && s.spec_data_length() == len && s.chain_len()
                                == chain.len() && forall|i: int|
                                0 <= i < chain.len() ==> #[trigger] s.cluster_at(i) == chain[i]
                        },
                        None => r matches Ok(s) && s.spec_data_length() == cs * chain.len()
                            && s.chain_len() == chain.len() && forall|i: int|
                            0 <= i < chain.len() ==> #[trigger] s.cluster_at(i) == chain[i],
                    }
                }
            }),
            match new_outcome(
                exfat.spec_params(),
                exfat.spec_fat(),
                first_cluster as int,
                data_length,
                no_fat_chain,
            ) {
                Some(e) => r == Err::<Self, NewError>(e),
                None => r is Ok,
            },
            r matches Ok(s) ==> s.spec_first() == first_cluster && s.spec_no_fat_chain() == (
            no_fat_chain == Some(true)),
            r matches Ok(s) ==> s.wf() && s.position() == 0 && s.spec_exfat() == *exfat
                && s.stream() == alloc_stream(
                *exfat,
                first_cluster as int,
                s.spec_data_length(),
                no_fat_chain == Some(true),
            ),
    {
        if first_cluster < 2 {
            return Err(NewError::InvalidFirstCluster);
        }
        let params = exfat.params();
        let cluster_size = params.cluster_size();
        let fat = exfat.fat();
        let is_contiguous = match no_fat_chain {
            Some(v) => v,
            None => false,
        };
        if is_contiguous {
            // Without a FAT chain the data length must not be zero.
            let len = match data_length {
                Some(v) => {
                    if v == 0 {
                        return Err(NewError::InvalidDataLength);
                    }
                    v
                },
                None => return Err(NewError::InvalidDataLength),
            };
            proof {
                lemma_fundamental_div_mod(len as int, cluster_size as int);
                let q = len / cluster_size;
                assert(q * 2 <= q * cluster_size) by (nonlinear_arith)
                    requires
                        cluster_size >= 2,
                        q >= 0,
                ;
                assert(cluster_size * (q + 1) == cluster_size * q + cluster_size) by (nonlinear_arith);
                assert(cluster_size * q == q * cluster_size) by (nonlinear_arith);
                assert(cluster_size * (q + 1) == (q + 1) * cluster_size) by (nonlinear_arith);
            }
            let count = if len % cluster_size == 0 {
                len / cluster_size
            } else {
                len / cluster_size + 1
            };
            if count > (usize::MAX - first_cluster) as u64 {
                return Err(NewError::InvalidDataLength);
            }
            let r = ClustersReader {
                exfat,
                chain: Vec::new(),
                no_fat_chain: true,
                first_cluster,
                extent: count,
                data_length: len,
                offset: 0,
            };
            assert(r.wf());
            assert(r.stream() =~= alloc_stream(*r.exfat, first_cluster as int, len as int, true));
            Ok(r)
        } else {
            let chain = fat.get_cluster_chain(first_cluster);
            if chain.len() == 0 {
                return Err(NewError::InvalidFirstCluster);
            }
            proof {
                vstd::arithmetic::mul::lemma_mul_upper_bound(
                    cluster_size as int,
                    crate::param::MAX_CLUSTER_SIZE as int,
                    chain@.len() as int,
                    4294967297,
                );
            }
            let chain_len = chain.len() as u64;
            let capacity = cluster_size * chain_len;
            let len = match data_length {
                Some(v) => {
                    if v > capacity {
                        return Err(NewError::InvalidDataLength);
                    }
                    v
                },
                None => capacity,
            };
            let r = ClustersReader {
                exfat,
                chain,
                no_fat_chain: false,
                first_cluster,
                extent: 0,
                data_length: len,
                offset: 0,
            };
            assert(cluster_size * chain_len == chain_len * cluster_size) by (nonlinear_arith);
            assert(r.wf());
            assert(r.stream() =~= alloc_stream(*r.exfat, first_cluster as int, len as int, false));
            Ok(r)
        }
    }

    /// The length of the stream.
    pub fn data_length(&self) -> (r: u64)
        ensures
            r == self.spec_data_length(),
    {
        self.data_length
    }

    /// The current offset in the stream.
    pub fn stream_position(&self) -> (r: u64)
        ensures
            r == self.position(),
    {
        self.offset
    }

    /// Moves to `off`; refused past the end.
    pub fn seek(&mut self, off: u64) -> (r: bool)
        requires
            old(self).wf(),
        ensures
            r == (off <= old(self).spec_data_length()),
            final(self).wf(),
            final(self).stream() == old(self).stream(),
            final(self).spec_data_length() == old(self).spec_data_length(),
            final(self).spec_exfat() == old(self).spec_exfat(),
            final(self).chain_len() == old(self).chain_len(),
            final(self).position() == if r {
                off as int
            } else {
                old(self).position()
            },
    {
        if off > self.data_length {
            return false;
        }
        self.offset = off;
        true
    }

    /// Moves to the start of the stream.
    pub fn rewind(&mut self)
        requires
            old(self).wf(),
        ensures
            final(self).wf(),
            final(self).stream() == old(self).stream(),
            final(self).spec_data_length() == old(self).spec_data_length(),
            final(self).spec_exfat() == old(self).spec_exfat(),
            final(self).chain_len() == old(self).chain_len(),
            final(self).position() == 0,
    {
        self.offset = 0;
    }

    /// Shortens the stream to `len` bytes; the clusters stay.
    pub fn truncate(&mut self, len: u64)
        requires
            old(self).wf(),
            old(self).position() == 0,
            len <= old(self).spec_data_length(),
        ensures
            final(self).wf(),
            final(self).position() == 0,
            final(self).spec_data_length() == len,
            final(self).stream() == old(self).stream().subrange(0, len as int),
            final(self).spec_exfat() == old(self).spec_exfat(),
            final(self).chain_len() == old(self).chain_len(),
            forall|i: int| #[trigger] final(self).cluster_at(i) == old(self).cluster_at(i),
    {
        let ghost before = self.stream();
        self.data_length = len;
        assert(self.stream() =~= before.subrange(0, len as int));
    }

    /// The cluster that holds the current offset.
    pub fn cluster(&self) -> (r: usize)
        requires
            self.wf(),
            self.position() < self.spec_data_length(),
        ensures
            r == self.cluster_at(self.position() / self.cluster_size()),
    {
        let cs = self.exfat.params().cluster_size();
        proof {
            lemma_multiply_divide_lt(self.offset as int, cs as int, self.chain_len());
            assert(self.offset < cs * self.chain_len()) by (nonlinear_arith)
                requires
                    self.offset < self.data_length,
                    self.data_length <= self.chain_len() * cs,
            ;
        }
        let idx = (self.offset / cs) as usize;
        if self.no_fat_chain {
            self.first_cluster + idx
        } else {
            self.chain[idx]
        }
    }

    /// The number of bytes that a read of at most `len` bytes returns at
    /// the current offset: it stops at the end of the cluster and of the
    /// stream.
    pub open spec fn read_len(&self, len: int) -> int {
        min(
            len,
            min(
                self.cluster_size() - self.position() % self.cluster_size(),
                self.spec_data_length() - self.position(),
            ),
        )
    }

    /// Reads at most `len` bytes, from one cluster, with one read of the
    /// partition. Nothing comes back at the end of the stream.
    pub fn read(&mut self, len: usize) -> (r: Result<Vec<u8>, ReadError<P::Err>>)
        requires
            old(self).wf(),
        ensures
            final(self).wf(),
            final(self).stream() == old(self).stream(),
            final(self).spec_data_length() == old(self).spec_data_length(),
            final(self).spec_exfat() == old(self).spec_exfat(),
            final(self).chain_len() == old(self).chain_len(),
            old(self).position() <= final(self).position() <= final(self).spec_data_length(),
            r is Err ==> final(self).position() == old(self).position(),
            r matches Ok(v) ==> v@ == old(self).stream().subrange(
                old(self).position(),
                final(self).position(),
            ),
            r matches Ok(v) ==> (v@.len() == 0 <==> (len == 0 || old(self).position()
                == old(self).spec_data_length())),
            r matches Ok(v) ==> v@.len() == old(self).read_len(len as int),
            forall|i: int| #[trigger] final(self).cluster_at(i) == old(self).cluster_at(i),
            final(self).spec_first() == old(self).spec_first(),
            final(self).spec_no_fat_chain() == old(self).spec_no_fat_chain(),
            !(r matches Err(ReadError::UnexpectedEof)),
            r matches Err(ReadError::ClusterUnavailable(_)) ==> !old(self).byte_readable(
                old(self).position(),
            ),
            r matches Err(ReadError::ReadFailed(..)) ==> !old(self).readable(
                old(self).position(),
                old(self).position() + old(self).read_len(len as int),
            ),
            ({
                let o = old(self).position();
                let cs = old(self).cluster_size();
                let c = old(self).cluster_at(o / cs);
                if len == 0 || o == old(self).spec_data_length() {
                    r matches Ok(v) && v@.len() == 0 && final(self).position() == o
                } else if old(self).byte_offset(o) is None || old(self).byte_offset(o)->Some_0
                    > u64::MAX {
                    r matches Err(ReadError::ClusterUnavailable(e)) && e == c
                        && final(self).position() == o
                } else {
                    let n = old(self).read_len(len as int);
                    match r {
                        Ok(v) => {
                            &&& n >= 1
                            &&& v@ == old(self).stream().subrange(o, o + n)
                            &&& final(self).position() == o + n
                        },
                        Err(ReadError::ReadFailed(at, _)) => at == old(self).byte_offset(o)->Some_0
                            && final(self).position() == o,
                        Err(_) => false,
                    }
                }
            }),
    {
        proof {
            self.lemma_wf();
        }
        if len == 0 || self.offset == self.data_length {
            return Ok(Vec::new());
        }
        let params = self.exfat.params();
        let cs = params.cluster_size();
        let cluster = self.cluster();
        let within = self.offset % cs;
        let base = match params.cluster_offset(cluster) {
            Some(v) => v,
            None => return Err(ReadError::ClusterUnavailable(cluster)),
        };
        let at = match base.checked_add(within) {
            Some(v) => v,
            None => return Err(ReadError::ClusterUnavailable(cluster)),
        };
        let in_cluster = cs - within;
        let in_stream = self.data_length - self.offset;
        let remaining = if in_cluster <= in_stream {
            in_cluster
        } else {
            in_stream
        };
        let amount: usize = if (len as u64) <= remaining {
            len
        } else {
            remaining as usize
        };
        let ghost o = self.offset as int;
        let data = match read_exact(self.exfat.partition(), at, amount) {
            Ok(v) => v,
            Err(e) => {
                proof {
                    if self.readable(o, o + amount) {
                        let q = o / cs as int;
                        let w = o % cs as int;
                        lemma_fundamental_div_mod(o, cs as int);
                        assert(o == q * cs + w) by (nonlinear_arith)
                            requires
                                o == cs * q + w,
                        ;
                        lemma_fundamental_div_mod_converse(o + amount - 1, cs as int, q, w + amount - 1);
                        assert(self.byte_readable(o + amount - 1));
                    }
                }
                return Err(ReadError::ReadFailed(at, e));
            },
        };
        proof {
            let q = o / cs as int;
            let w = o % cs as int;
            lemma_fundamental_div_mod(o, cs as int);
            assert(o == q * cs + w) by (nonlinear_arith)
                requires
                    o == cs * q + w,
            ;
            assert forall|j: int| 0 <= j < amount implies #[trigger] data@[j] == self.stream()[o
                + j] by {
                lemma_fundamental_div_mod_converse(o + j, cs as int, q, w + j);
            }
            assert(data@ =~= self.stream().subrange(o, o + amount));
        }
        self.offset = self.offset + amount as u64;
        Ok(data)
    }

    /// Reads exactly `len` bytes. Where the stream ends first, it reads up
    /// to its end and then fails.
    pub fn read_exact(&mut self, len: usize) -> (r: Result<Vec<u8>, ReadError<P::Err>>)
        requires
            old(self).wf(),
        ensures
            final(self).wf(),
            final(self).stream() == old(self).stream(),
            final(self).spec_data_length() == old(self).spec_data_length(),
            final(self).spec_exfat() == old(self).spec_exfat(),
            final(self).chain_len() == old(self).chain_len(),
            old(self).position() <= final(self).position() <= final(self).spec_data_length(),
            r matches Ok(v) ==> {
                &&& old(self).position() + len <= old(self).spec_data_length()
                &&& v@ == old(self).stream().subrange(
                    old(self).position(),
                    old(self).position() + len,
                )
                &&& final(self).position() == old(self).position() + len
            },
            len == 0 ==> (r matches Ok(v) && v@.len() == 0),
            final(self).same_layout(old(self)),
            r matches Err(e) ==> read_fault(
                old(self).spec_exfat(),
                old(self).spec_first(),
                old(self).spec_no_fat_chain(),
                old(self).spec_data_length(),
                e,
                old(self).position(),
                len as int,
            ),
            alloc_readable(
                old(self).spec_exfat(),
                old(self).spec_first(),
                old(self).spec_no_fat_chain(),
                old(self).position(),
                min(old(self).position() + len, old(self).spec_data_length()),
            ) ==> if old(self).position() + len <= old(self).spec_data_length() {
                r is Ok
            } else {
                r matches Err(ReadError::UnexpectedEof)
            },
            r matches Err(ReadError::UnexpectedEof) ==> old(self).position() + len
                > old(self).spec_data_length() && final(self).position()
                == old(self).spec_data_length(),
            r matches Err(ReadError::ClusterUnavailable(c)) ==> exists|i: int|
                old(self).position() <= i < old(self).position() + len && i
                    < old(self).spec_data_length() && !#[trigger] old(self).byte_readable(i) && c
                    == old(self).cluster_at(i / old(self).cluster_size()),
            r matches Err(ReadError::ReadFailed(..)) ==> !old(self).readable(
                old(self).position(),
                min(old(self).position() + len, old(self).spec_data_length()),
            ),
            old(self).readable(
                old(self).position(),
                min(old(self).position() + len, old(self).spec_data_length()),
            ) ==> if old(self).position() + len <= old(self).spec_data_length() {
                r is Ok
            } else {
                r matches Err(ReadError::UnexpectedEof)
            },
    {
        let ghost start = self.position();
        let ghost end = min(start + len, self.spec_data_length());
        let mut out: Vec<u8> = Vec::new();
        proof {
            self.lemma_wf();
            let vol = self.spec_exfat();
            let first = self.spec_first();
            let nfc = self.spec_no_fat_chain();
            assert(forall|from: int, to: int|
                self.readable(from, to) == alloc_readable(vol, first, nfc, from, to)) by {
                assert forall|from: int, to: int| #[trigger]
                    self.readable(from, to) == alloc_readable(vol, first, nfc, from, to) by {
                    if self.readable(from, to) {
                        assert forall|i: int| from <= i < to implies #[trigger] alloc_byte_readable(
                            vol,
                            first,
                            nfc,
                            i,
                        ) by {
                            assert(self.byte_readable(i));
                        }
                    }
                    if alloc_readable(vol, first, nfc, from, to) {
                        assert forall|i: int| from <= i < to implies #[trigger] self.byte_readable(
                            i,
                        ) by {
                            assert(alloc_byte_readable(vol, first, nfc, i));
                        }
                    }
                }
            }
        }
        while out.len() < len
            invariant
                self.wf(),
                self.stream() == old(self).stream(),
                self.spec_data_length() == old(self).spec_data_length(),
                self.spec_exfat() == old(self).spec_exfat(),
                self.chain_len() == old(self).chain_len(),
                self.cluster_size() == old(self).cluster_size(),
                forall|i: int| #[trigger] self.cluster_at(i) == old(self).cluster_at(i),
                self.spec_first() == old(self).spec_first(),
                self.spec_no_fat_chain() == old(self).spec_no_fat_chain(),
                forall|from: int, to: int|
                    #[trigger] old(self).readable(from, to) == alloc_readable(
                        old(self).spec_exfat(),
                        old(self).spec_first(),
                        old(self).spec_no_fat_chain(),
                        from,
                        to,
                    ),
                forall|i: int|
                    #[trigger] old(self).byte_readable(i) == alloc_byte_readable(
                        old(self).spec_exfat(),
                        old(self).spec_first(),
                        old(self).spec_no_fat_chain(),
                        i,
                    ),
                forall|k: int|
                    #[trigger] old(self).cluster_at(k) == chain_cluster(
                        old(self).spec_exfat().spec_fat(),
                        old(self).spec_first(),
                        old(self).spec_no_fat_chain(),
                        k,
                    ),
                out@.len() <= len,
                start == old(self).position(),
                end == min(start + len, self.spec_data_length()),
                self.position() == start + out@.len(),
                self.position() <= self.spec_data_length(),
                out@ == self.stream().subrange(start, self.position()),
            decreases len - out@.len(),
        {
            let ghost p = self.position();
            proof {
                if old(self).readable(start, end) {
                    let n = self.read_len((len - out@.len()) as int);
                    assert(p + n <= end);
                    assert forall|i: int| p <= i < p + n implies #[trigger] self.byte_readable(i) by {
                        assert(old(self).byte_readable(i));
                        assert(self.cluster_at(i / self.cluster_size()) == old(self).cluster_at(
                            i / old(self).cluster_size(),
                        ));
                    }
                    assert(self.readable(p, p + n));
                }
                assert forall|i: int| #[trigger] self.byte_readable(i) == old(self).byte_readable(
                    i,
                ) by {
                    assert(self.cluster_at(i / self.cluster_size()) == old(self).cluster_at(
                        i / old(self).cluster_size(),
                    ));
                }
            }
            let mut chunk = match self.read(len - out.len()) {
                Ok(v) => v,
                Err(e) => {
                    proof {
                        let vol = old(self).spec_exfat();
                        let first = old(self).spec_first();
                        let nfc = old(self).spec_no_fat_chain();
                        if let ReadError::ClusterUnavailable(c) = e {
                            assert(!old(self).byte_readable(p));
                            assert(!alloc_byte_readable(vol, first, nfc, p));
                            assert(c == chain_cluster(
                                vol.spec_fat(),
                                first,
                                nfc,
                                p / old(self).cluster_size(),
                            ));
                        }
                        if alloc_readable(vol, first, nfc, start, end) {
                            assert(old(self).readable(start, end));
                        }
                    }
                    return Err(e);
                },
            };
            if chunk.len() == 0 {
                return Err(ReadError::UnexpectedEof);
            }
            out.append(&mut chunk);
            assert(out@ =~= self.stream().subrange(start, self.position()));
        }
        Ok(out)
    }

    /// Reads from the current offset to the end of the stream.
    pub fn read_to_end(&mut self) -> (r: Result<Vec<u8>, ReadError<P::Err>>)
        requires
            old(self).wf(),
        ensures
            final(self).wf(),
            final(self).stream() == old(self).stream(),
            final(self).spec_data_length() == old(self).spec_data_length(),
            final(self).spec_exfat() == old(self).spec_exfat(),
            final(self).chain_len() == old(self).chain_len(),
            r matches Ok(v) ==> {
                &&& v@ == old(self).stream().subrange(
                    old(self).position(),
                    old(self).spec_data_length(),
                )
                &&& final(self).position() == old(self).spec_data_length()
            },
            old(self).position() == old(self).spec_data_length() ==> (r matches Ok(v) && v@.len()
                == 0),
            !(r matches Err(ReadError::UnexpectedEof)),
            r matches Err(ReadError::ClusterUnavailable(c)) ==> exists|i: int|
                old(self).position() <= i < old(self).spec_data_length() && !#[trigger] old(
                    self,
                ).byte_readable(i) && c == old(self).cluster_at(i / old(self).cluster_size()),
            r matches Err(ReadError::ReadFailed(..)) ==> !old(self).readable(
                old(self).position(),
                old(self).spec_data_length(),
            ),
            old(self).readable(old(self).position(), old(self).spec_data_length()) ==> r is Ok,
    {
        let ghost start = self.position();
        let mut out: Vec<u8> = Vec::new();
        proof {
            self.lemma_wf();
        }
        loop
            invariant
                self.wf(),
                self.stream() == old(self).stream(),
                self.spec_data_length() == old(self).spec_data_length(),
                self.spec_exfat() == old(self).spec_exfat(),
                self.chain_len() == old(self).chain_len(),
                self.cluster_size() == old(self).cluster_size(),
                forall|i: int| #[trigger] self.cluster_at(i) == old(self).cluster_at(i),
                start == old(self).position(),
                start <= self.position() <= self.spec_data_length(),
                out@ == self.stream().subrange(start, self.position()),
            decreases self.spec_data_length() - self.position(),
        {
            let ghost p = self.position();
            proof {
                self.lemma_wf();
                let n = self.read_len(4096);
                if old(self).readable(start, self.spec_data_length()) {
                    assert forall|i: int| p <= i < p + n implies #[trigger] self.byte_readable(i) by {
                        assert(old(self).byte_readable(i));
                        assert(self.cluster_at(i / self.cluster_size()) == old(self).cluster_at(
                            i / old(self).cluster_size(),
                        ));
                    }
                    assert(self.readable(p, p + n));
                }
                assert forall|i: int| #[trigger] self.byte_readable(i) == old(self).byte_readable(
                    i,
                ) by {
                    assert(self.cluster_at(i / self.cluster_size()) == old(self).cluster_at(
                        i / old(self).cluster_size(),
                    ));
                }
            }
            let mut chunk = match self.read(4096) {
                Ok(v) => v,
                Err(e) => return Err(e),
            };
            if chunk.len() == 0 {
                return Ok(out);
            }
            out.append(&mut chunk);
            assert(out@ =~= self.stream().subrange(start, self.position()));
        }
    }
}

} // verus!

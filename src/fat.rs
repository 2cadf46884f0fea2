use crate::bytes::{le_u32_at, read_u32_le};
use crate::disk::{read_exact, DiskPartition};
use crate::param::Params;
use vstd::prelude::*;

verus! {

/// The FAT entry that marks a bad cluster.
pub const BAD_CLUSTER: u32 = 0xfffffff7;

/// The cluster chain that starts at `cur`, following `entries`, for at most
/// `fuel` clusters. It ends before an index out of `[2, entries.len())` and
/// before a cluster marked bad.
pub open spec fn fat_chain(entries: Seq<u32>, cur: int, fuel: nat) -> Seq<usize>
    decreases fuel,
{
    if fuel == 0 || cur < 2 || cur >= entries.len() || entries[cur] == BAD_CLUSTER {
        seq![]
    } else {
        seq![cur as usize] + fat_chain(entries, entries[cur] as int, (fuel - 1) as nat)
    }
}

/// Every cluster of a chain lies in `[2, entries.len())`, and a chain has at
/// most `fuel` clusters.
pub proof fn lemma_chain_in_range(entries: Seq<u32>, cur: int, fuel: nat)
    requires
        entries.len() <= usize::MAX,
    ensures
        fat_chain(entries, cur, fuel).len() <= fuel,
        forall|i: int|
            0 <= i < fat_chain(entries, cur, fuel).len() ==> 2 <= #[trigger] fat_chain(
                entries,
                cur,
                fuel,
            )[i] < entries.len(),
    decreases fuel,
{
    if !(fuel == 0 || cur < 2 || cur >= entries.len() || entries[cur] == BAD_CLUSTER) {
        let rest = fat_chain(entries, entries[cur] as int, (fuel - 1) as nat);
        lemma_chain_in_range(entries, entries[cur] as int, (fuel - 1) as nat);
        assert forall|i: int| 0 <= i < fat_chain(entries, cur, fuel).len() implies 2
            <= #[trigger] fat_chain(entries, cur, fuel)[i] < entries.len() by {
            if i > 0 {
                assert(fat_chain(entries, cur, fuel)[i] == rest[i - 1]);
            } else {
                assert(fat_chain(entries, cur, fuel)[0] == cur as usize);
            }
        }
    }
}

/// Sector of FAT number `index`: none where it does not fit in 64 bits.
pub open spec fn fat_sector(p: Params, index: int) -> Option<int> {
    if p.fat_length * index > u64::MAX || p.fat_offset + p.fat_length * index > u64::MAX {
        None
    } else {
        Some(p.fat_offset + p.fat_length * index)
    }
}

/// Byte offset of FAT number `index`.
pub open spec fn fat_byte_offset(p: Params, index: int) -> Option<int> {
    match fat_sector(p, index) {
        Some(s) => if s * p.bytes_per_sector > u64::MAX {
            None
        } else {
            Some(s * p.bytes_per_sector)
        },
        None => None,
    }
}

/// A File Allocation Table, loaded whole.
pub struct Fat {
    entries: Vec<u32>,
}

/// Why a FAT could not be loaded.
#[derive(Debug)]
pub enum LoadError<E> {
    InvalidFatLength,
    InvalidFatOffset,
    ReadFailed(u64, E),
}

impl Fat {
    /// The entries, one for each cluster index.
    pub closed spec fn view(&self) -> Seq<u32> {
        self.entries@
    }

    /// Loads FAT number `index` (0 or 1): `cluster_count + 2` entries of
    /// four bytes.
    pub fn load<P: DiskPartition>(params: &Params, partition: &P, index: usize) -> (r: Result<
        Fat,
        LoadError<P::Err>,
    >)
        requires
            params.wf(),
            index <= 1,
        ensures
            match r {
                Ok(fat) => {
                    &&& fat_byte_offset(*params, index as int) is Some
                    &&& fat@.len() == params.cluster_count + 2
                    &&& forall|i: int|
                        0 <= i < fat@.len() ==> #[trigger] fat@[i] as int == le_u32_at(
                            partition.content(),
                            fat_byte_offset(*params, index as int)->Some_0 + 4 * i,
                        )
                },
                Err(LoadError::InvalidFatLength) => params.fat_length * index > u64::MAX || (
                fat_byte_offset(*params, index as int) is Some && (params.cluster_count + 2) * 4
                    > usize::MAX),
                Err(LoadError::InvalidFatOffset) => params.fat_length * index <= u64::MAX
                    && fat_byte_offset(*params, index as int) is None,
                Err(LoadError::ReadFailed(o, _)) => fat_byte_offset(*params, index as int)
                    == Some(o as int),
            },
    {
        // Offset of the region.
        let sector = match params.fat_length.checked_mul(index as u64) {
            Some(v) => match params.fat_offset.checked_add(v) {
                Some(v) => v,
                None => return Err(LoadError::InvalidFatOffset),
            },
            None => return Err(LoadError::InvalidFatLength),
        };
        let offset = match sector.checked_mul(params.bytes_per_sector) {
            Some(v) => v,
            None => return Err(LoadError::InvalidFatOffset),
        };

        // The entries, in little endian.
        let count = match (params.cluster_count as usize).checked_add(2) {
            Some(v) => v,
            None => return Err(LoadError::InvalidFatLength),
        };
        let size = match count.checked_mul(4) {
            Some(v) => v,
            None => return Err(LoadError::InvalidFatLength),
        };
        let data = match read_exact(partition, offset, size) {
            Ok(v) => v,
            Err(e) => return Err(LoadError::ReadFailed(offset, e)),
        };
        let mut entries: Vec<u32> = Vec::new();
        let mut i: usize = 0;
        while i < count
            invariant
                i <= count,
                count == params.cluster_count + 2,
                size == count * 4,
                data@.len() == size,
                offset + size <= partition.content().len(),
                data@ == partition.content().subrange(offset as int, offset + size),
                entries@.len() == i,
                forall|j: int|
                    0 <= j < i ==> #[trigger] entries@[j] as int == le_u32_at(
                        partition.content(),
                        offset + 4 * j,
                    ),
            decreases count - i,
        {
            let v = read_u32_le(data.as_slice(), 4 * i);
            proof {
                let c = partition.content();
                assert(data@[4 * i] == c[offset + 4 * i]);
                assert(data@[4 * i + 1] == c[offset + 4 * i + 1]);
                assert(data@[4 * i + 2] == c[offset + 4 * i + 2]);
                assert(data@[4 * i + 3] == c[offset + 4 * i + 3]);
            }
            entries.push(v);
            i += 1;
        }
        Ok(Fat { entries })
    }

    /// The clusters of the chain that starts at `first`, at most one for
    /// each entry of the table, so that a cycle ends the chain.
    pub fn get_cluster_chain(&self, first: usize) -> (r: Vec<usize>)
        ensures
            r@ == fat_chain(self@, first as int, self@.len()),
            r@.len() <= self@.len(),
            self@.len() <= usize::MAX,
            forall|i: int| 0 <= i < r@.len() ==> 2 <= #[trigger] r@[i] < self@.len(),
    {
        let ghost full = fat_chain(self@, first as int, self@.len() as nat);
        let mut chain: Vec<usize> = Vec::new();
        let mut next = first;
        let count = self.entries.len();
        while chain.len() < count
            invariant
                count == self@.len(),
                chain@.len() <= self@.len(),
                chain@ + fat_chain(self@, next as int, (self@.len() - chain@.len()) as nat) == full,
            ensures
                chain@ == full,
            decreases self@.len() - chain@.len(),
        {
            let ghost fuel = (self@.len() - chain@.len()) as nat;
            if next < 2 || next >= self.entries.len() || self.entries[next] == BAD_CLUSTER {
                assert(fat_chain(self@, next as int, fuel) == Seq::<usize>::empty());
                assert(chain@ =~= full);
                break;
            }
            let ghost old_chain = chain@;
            let ghost old_next = next;
            chain.push(next);
            next = self.entries[next] as usize;
            assert(fat_chain(self@, old_next as int, fuel) == seq![old_next] + fat_chain(
                self@,
                next as int,
                (fuel - 1) as nat,
            ));
            assert(chain@ + fat_chain(self@, next as int, (fuel - 1) as nat) =~= old_chain
                + fat_chain(self@, old_next as int, fuel));
        }
        proof {
            lemma_chain_in_range(self@, first as int, self@.len() as nat);
        }
        chain
    }
}

} // verus!
